//! Path template parsing and rendering.
//!
//! `--group` and `--location` are sugar that expand into templates, so grouping
//! and `--template` share exactly one renderer.

use crate::calendar::{iso_week_number, iso_year, Date, Ymd};
use crate::error::{Flaw, TemplateError};
use crate::sanitize;
use crate::sanitize::{component_of, is_clean, nfc_text};
use crate::text::{
    byte_len, bytes_within, char_at, char_width, chars_of, copied, find, find_any, joined,
    joined_splits_back, lemma_byte_len_encode, lemma_byte_len_positive, lemma_byte_len_take,
    lemma_find_any_is, lower, parse_u32, parse_unsigned, push_all, push_text, same, signed_chars,
    signed_decimal, split_any, text_of, trim, trimmed, width_of,
};
use vstd::prelude::*;
use vstd::slice::slice_subrange;

verus! {

#[derive(Debug, Clone, Copy, PartialEq, Eq, Structural)]
pub enum Var {
    Year,
    Month,
    MonthName,
    Day,
    IsoYear,
    IsoWeek,
    Country,
    Region,
    City,
    CameraMake,
    CameraModel,
}

#[derive(Debug, Clone, Copy, PartialEq, Eq, Structural)]
pub enum Class {
    Date,
    Location,
    Camera,
}

/// One character of literal text or one variable.
#[derive(Debug, Clone, Copy, PartialEq, Eq, Structural)]
pub enum Token {
    Char(char),
    Field { var: Var, pad: usize },
}

/// The variable of a name.
pub open spec fn var_named(name: Seq<char>) -> Option<Var> {
    if name == "year"@ {
        Some(Var::Year)
    } else if name == "month"@ {
        Some(Var::Month)
    } else if name == "month_name"@ {
        Some(Var::MonthName)
    } else if name == "day"@ {
        Some(Var::Day)
    } else if name == "iso_year"@ {
        Some(Var::IsoYear)
    } else if name == "iso_week"@ {
        Some(Var::IsoWeek)
    } else if name == "country"@ {
        Some(Var::Country)
    } else if name == "region"@ {
        Some(Var::Region)
    } else if name == "city"@ {
        Some(Var::City)
    } else if name == "camera_make"@ {
        Some(Var::CameraMake)
    } else if name == "camera_model"@ {
        Some(Var::CameraModel)
    } else {
        None
    }
}

pub open spec fn class_of(var: Var) -> Class {
    match var {
        Var::Year | Var::Month | Var::MonthName | Var::Day | Var::IsoYear | Var::IsoWeek =>
            Class::Date,
        Var::Country | Var::Region | Var::City => Class::Location,
        Var::CameraMake | Var::CameraModel => Class::Camera,
    }
}

pub open spec fn numeric(var: Var) -> bool {
    var is Year || var is Month || var is Day || var is IsoYear || var is IsoWeek
}

fn is_text(v: &[char], text: &str) -> (b: bool)
    ensures
        b == (v@ == text@),
{
    same(v, &chars_of(text))
}

impl Var {
    fn parse(name: &[char]) -> (r: Option<Var>)
        ensures
            r == var_named(name@),
    {
        if is_text(name, "year") {
            Some(Var::Year)
        } else if is_text(name, "month") {
            Some(Var::Month)
        } else if is_text(name, "month_name") {
            Some(Var::MonthName)
        } else if is_text(name, "day") {
            Some(Var::Day)
        } else if is_text(name, "iso_year") {
            Some(Var::IsoYear)
        } else if is_text(name, "iso_week") {
            Some(Var::IsoWeek)
        } else if is_text(name, "country") {
            Some(Var::Country)
        } else if is_text(name, "region") {
            Some(Var::Region)
        } else if is_text(name, "city") {
            Some(Var::City)
        } else if is_text(name, "camera_make") {
            Some(Var::CameraMake)
        } else if is_text(name, "camera_model") {
            Some(Var::CameraModel)
        } else {
            None
        }
    }

    pub fn class(self) -> (c: Class)
        ensures
            c == class_of(self),
    {
        match self {
            Var::Year | Var::Month | Var::MonthName | Var::Day | Var::IsoYear | Var::IsoWeek => {
                Class::Date
            },
            Var::Country | Var::Region | Var::City => Class::Location,
            Var::CameraMake | Var::CameraModel => Class::Camera,
        }
    }

    fn is_numeric(self) -> (b: bool)
        ensures
            b == numeric(self),
    {
        matches!(self, Var::Year | Var::Month | Var::Day | Var::IsoYear | Var::IsoWeek)
    }
}

/// What a template is made of, before its path components are told apart.
pub enum Mark {
    Slash,
    Part(Token),
}

/// The width of a padding spec: a `0` and a number up to 9.
pub open spec fn pad_width(spec: Seq<char>) -> Option<nat> {
    if spec.len() > 0 && spec[0] == '0' {
        parse_unsigned(spec.skip(1), 9)
    } else {
        None
    }
}

/// The variable between two braces, `name` or `name:spec`.
pub open spec fn field_of(body: Seq<char>) -> Result<Token, Flaw> {
    let at = find_any(body, seq![':'], 0);
    let name = body.take(at);
    let spec = body.skip(at + 1);
    if at < body.len() && pad_width(spec) is None {
        Err(Flaw::BadPadding(spec))
    } else {
        let pad: usize = if at < body.len() {
            pad_width(spec).unwrap() as usize
        } else {
            0
        };
        match var_named(trim(name)) {
            None => Err(Flaw::UnknownVariable(trim(name))),
            Some(var) => if pad > 0 && !numeric(var) {
                Err(Flaw::BadPadding(name + " is not numeric"@))
            } else {
                Ok(Token::Field { var, pad })
            },
        }
    }
}

pub open spec fn prefixed(marks: Seq<Mark>, rest: Result<Seq<Mark>, Flaw>) -> Result<
    Seq<Mark>,
    Flaw,
> {
    match rest {
        Ok(r) => Ok(marks + r),
        Err(e) => Err(e),
    }
}

/// The marks of a template from its `i`th character on.
pub open spec fn marks_from(s: Seq<char>, i: int) -> Result<Seq<Mark>, Flaw>
    decreases s.len() - i,
{
    if i < 0 || i >= s.len() {
        Ok(seq![])
    } else if s[i] == '{' {
        let end = find_any(s, seq!['}'], i);
        if end <= i || end >= s.len() {
            Err(Flaw::UnclosedBrace(byte_len(s.take(i))))
        } else {
            match field_of(s.subrange(i + 1, end)) {
                Err(e) => Err(e),
                Ok(token) => prefixed(seq![Mark::Part(token)], marks_from(s, end + 1)),
            }
        }
    } else if s[i] == '}' {
        Err(Flaw::StrayBrace(byte_len(s.take(i))))
    } else if s[i] == '/' || s[i] == '\\' {
        prefixed(seq![Mark::Slash], marks_from(s, i + 1))
    } else {
        prefixed(seq![Mark::Part(Token::Char(s[i]))], marks_from(s, i + 1))
    }
}

/// The path components that slashes have ended, and the one still open.
pub open spec fn grouped(marks: Seq<Mark>) -> (Seq<Seq<Token>>, Seq<Token>)
    decreases marks.len(),
{
    if marks.len() == 0 {
        (seq![], seq![])
    } else {
        let (done, open) = grouped(marks.drop_last());
        match marks.last() {
            Mark::Slash => (closed_off(done, open), seq![]),
            Mark::Part(token) => (done, open.push(token)),
        }
    }
}

/// An empty path component leaves no trace.
pub open spec fn closed_off(done: Seq<Seq<Token>>, open: Seq<Token>) -> Seq<Seq<Token>> {
    if open.len() > 0 {
        done.push(open)
    } else {
        done
    }
}

/// The path components between the slashes.
pub open spec fn segments_of(marks: Seq<Mark>) -> Seq<Seq<Token>> {
    closed_off(grouped(marks).0, grouped(marks).1)
}

/// The literal text of a path component.
pub open spec fn literal_of(seg: Seq<Token>) -> Seq<char>
    decreases seg.len(),
{
    if seg.len() == 0 {
        seq![]
    } else {
        match seg.last() {
            Token::Char(c) => literal_of(seg.drop_last()).push(c),
            Token::Field { .. } => literal_of(seg.drop_last()),
        }
    }
}

/// A path component that, its variables left out, is the parent directory.
pub open spec fn is_parent(seg: Seq<Token>) -> bool {
    trim(literal_of(seg)) == ".."@
}

pub open spec fn is_absolute(s: Seq<char>) -> bool {
    ||| s.len() > 0 && (s[0] == '/' || s[0] == '\\')
    ||| s.len() > 1 && char_width(s[0]) == 1 && s[1] == ':'
}

/// The path components of a template, or why it is refused.
pub open spec fn parsed(s: Seq<char>) -> Result<Seq<Seq<Token>>, Flaw> {
    if trim(s).len() == 0 {
        Err(Flaw::Empty)
    } else if is_absolute(s) {
        Err(Flaw::Absolute)
    } else {
        match marks_from(s, 0) {
            Err(e) => Err(e),
            Ok(marks) => if segments_of(marks).len() == 0 {
                Err(Flaw::Empty)
            } else if exists|k: int|
                0 <= k < segments_of(marks).len() && is_parent(#[trigger] segments_of(marks)[k]) {
                Err(Flaw::ParentEscape)
            } else {
                Ok(segments_of(marks))
            },
        }
    }
}

#[derive(Debug, Clone)]
pub struct Template {
    segments: Vec<Vec<Token>>,
    source: String,
}

pub open spec fn views(v: Seq<Vec<Token>>) -> Seq<Seq<Token>> {
    v.map_values(|seg: Vec<Token>| seg@)
}

impl View for Template {
    type V = Seq<Seq<Token>>;

    closed spec fn view(&self) -> Seq<Seq<Token>> {
        views(self.segments@)
    }
}

fn field_at(body: &[char]) -> (r: Result<Token, TemplateError>)
    ensures
        match r {
            Ok(token) => field_of(body@) == Ok::<Token, Flaw>(token),
            Err(e) => field_of(body@) == Err::<Token, Flaw>(e@),
        },
{
    let colon: [char; 1] = [':'];
    assert(colon@ =~= seq![':']);
    let at = find(body, &colon, 0);
    let name = slice_subrange(body, 0, at);
    let mut pad: usize = 0;
    if at < body.len() {
        let spec = slice_subrange(body, at + 1, body.len());
        assert(spec@ =~= body@.skip(at + 1));
        let width = if spec.len() > 0 && spec[0] == '0' {
            let digits = slice_subrange(spec, 1, spec.len());
            assert(digits@ =~= spec@.skip(1));
            match parse_u32(digits) {
                Some(w) if w <= 9 => Some(w),
                _ => None,
            }
        } else {
            None
        };
        match width {
            Some(w) => {
                pad = w as usize;
            },
            None => {
                return Err(TemplateError::BadPadding(text_of(spec)));
            },
        }
    }
    match Var::parse(trimmed(name)) {
        None => Err(TemplateError::UnknownVariable(text_of(trimmed(name)))),
        Some(var) => {
            if pad > 0 && !var.is_numeric() {
                let mut v = copied(name);
                push_text(&mut v, " is not numeric");
                Err(TemplateError::BadPadding(text_of(&v)))
            } else {
                Ok(Token::Field { var, pad })
            }
        },
    }
}

fn offset_of(v: &[char], i: usize) -> (n: usize)
    requires
        i <= v@.len(),
        byte_len(v@) <= usize::MAX,
    ensures
        n == byte_len(v@.take(i as int)),
{
    proof {
        lemma_byte_len_take(v@, i as int, i as int);
    }
    let head = slice_subrange(v, 0, i);
    match bytes_within(head, usize::MAX) {
        Some(n) => n,
        None => 0,
    }
}

fn literal_text(seg: &[Token]) -> (r: Vec<char>)
    ensures
        r@ == literal_of(seg@),
{
    let mut r: Vec<char> = Vec::new();
    let mut i: usize = 0;
    while i < seg.len()
        invariant
            i <= seg@.len(),
            r@ == literal_of(seg@.take(i as int)),
        decreases seg@.len() - i,
    {
        assert(seg@.take(i + 1).drop_last() =~= seg@.take(i as int));
        if let Token::Char(c) = seg[i] {
            r.push(c);
        }
        i += 1;
    }
    assert(seg@.take(i as int) =~= seg@);
    r
}

impl Template {
    /// The text that was parsed.
    pub closed spec fn source_text(self) -> Seq<char> {
        self.source@
    }

    pub fn parse(input: &str) -> (r: Result<Template, TemplateError>)
        ensures
            match r {
                Ok(t) => parsed(input@) == Ok::<Seq<Seq<Token>>, Flaw>(t@) && t.source_text()
                    == input@,
                Err(e) => parsed(input@) == Err::<Seq<Seq<Token>>, Flaw>(e@),
            },
    {
        let v = chars_of(input);
        let ghost s = input@;
        let total: usize = input.as_bytes().len();
        proof {
            lemma_byte_len_encode(s);
        }
        assert(byte_len(s) == total);
        if trimmed(&v).len() == 0 {
            return Err(TemplateError::Empty);
        }
        if v[0] == '/' || v[0] == '\\' {
            return Err(TemplateError::Absolute);
        }
        if v.len() >= 2 && v[1] == ':' && width_of(v[0]) == 1 {
            return Err(TemplateError::Absolute);
        }
        let mut segments: Vec<Vec<Token>> = Vec::new();
        let mut pieces: Vec<Token> = Vec::new();
        let mut i: usize = 0;
        let ghost mut marks: Seq<Mark> = seq![];
        let brace: [char; 1] = ['}'];
        assert(brace@ =~= seq!['}']);
        assert(views(segments@) =~= grouped(marks).0);
        assert(prefixed(marks, marks_from(s, 0)) == marks_from(s, 0)) by {
            if let Ok(r) = marks_from(s, 0) {
                assert(marks + r =~= r);
            }
        }
        while i < v.len()
            invariant
                v@ == s,
                s == input@,
                byte_len(s) <= usize::MAX,
                trim(s).len() > 0,
                !is_absolute(s),
                i <= v@.len(),
                brace@ == seq!['}'],
                views(segments@) == grouped(marks).0,
                pieces@ == grouped(marks).1,
                marks_from(s, 0) == prefixed(marks, marks_from(s, i as int)),
            decreases v@.len() - i,
        {
            let c = char_at(&v, i);
            let ghost before = marks;
            if c == '{' {
                let end = find(&v, &brace, i);
                if end >= v.len() {
                    return Err(TemplateError::UnclosedBrace(offset_of(&v, i)));
                }
                assert(seq!['}'].contains(s[end as int]));
                assert(end > i);
                match field_at(slice_subrange(&v, i + 1, end)) {
                    Err(e) => {
                        return Err(e);
                    },
                    Ok(token) => {
                        pieces.push(token);
                        proof {
                            marks = marks.push(Mark::Part(token));
                            lemma_prefix_step(before, Mark::Part(token), marks_from(s, end + 1));
                        }
                    },
                }
                i = end + 1;
            } else if c == '}' {
                return Err(TemplateError::StrayBrace(offset_of(&v, i)));
            } else if c == '/' || c == '\\' {
                if pieces.len() > 0 {
                    let ghost done = views(segments@);
                    let ghost open = pieces@;
                    segments.push(pieces);
                    pieces = Vec::new();
                    assert(views(segments@) =~= done.push(open));
                }
                proof {
                    marks = marks.push(Mark::Slash);
                    lemma_prefix_step(before, Mark::Slash, marks_from(s, i + 1));
                }
                i += 1;
            } else {
                let token = Token::Char(c);
                pieces.push(token);
                proof {
                    marks = marks.push(Mark::Part(token));
                    lemma_prefix_step(before, Mark::Part(token), marks_from(s, i + 1));
                }
                i += 1;
            }
        }
        proof {
            assert(marks + Seq::<Mark>::empty() =~= marks);
            assert(marks_from(s, 0) == Ok::<Seq<Mark>, Flaw>(marks));
        }
        if pieces.len() > 0 {
            let ghost done = views(segments@);
            let ghost open = pieces@;
            segments.push(pieces);
            assert(views(segments@) =~= done.push(open));
        }
        let ghost segs = segments_of(marks);
        assert(views(segments@) == segs);
        if segments.len() == 0 {
            return Err(TemplateError::Empty);
        }
        let mut k: usize = 0;
        while k < segments.len()
            invariant
                k <= segments@.len(),
                views(segments@) == segs,
                segs == segments_of(marks),
                segs.len() > 0,
                trim(s).len() > 0,
                !is_absolute(s),
                s == input@,
                marks_from(s, 0) == Ok::<Seq<Mark>, Flaw>(marks),
                forall|j: int| 0 <= j < k ==> !is_parent(#[trigger] segs[j]),
            decreases segments@.len() - k,
        {
            let text = literal_text(&segments[k]);
            assert(segs[k as int] == segments@[k as int]@);
            if is_text(trimmed(&text), "..") {
                assert(is_parent(segs[k as int]));
                return Err(TemplateError::ParentEscape);
            }
            k += 1;
        }
        let source = text_of(&v);
        Ok(Template { segments, source })
    }

    /// The text that was parsed.
    pub fn source(&self) -> (r: &str)
        ensures
            r@ == self.source_text(),
    {
        self.source.as_str()
    }
}

/// Everything a template can interpolate for one photo.
#[derive(Debug, Clone)]
pub struct RenderVars<'a> {
    pub date: Option<Date>,
    pub location: Option<&'a Location>,
    pub camera_make: Option<&'a str>,
    pub camera_model: Option<&'a str>,
}

#[derive(Debug, Clone, PartialEq, Eq)]
pub struct Location {
    pub country: Option<String>,
    pub region: Option<String>,
    pub city: Option<String>,
}

/// What a `Location` stands for.
#[verifier::ext_equal]
pub struct Place {
    pub country: Option<Seq<char>>,
    pub region: Option<Seq<char>>,
    pub city: Option<Seq<char>>,
}

/// What `RenderVars` stand for.
#[verifier::ext_equal]
pub struct Subject {
    pub date: Option<Ymd>,
    pub location: Option<Place>,
    pub camera_make: Option<Seq<char>>,
    pub camera_model: Option<Seq<char>>,
}

pub open spec fn text_view(s: Option<String>) -> Option<Seq<char>> {
    match s {
        Some(t) => Some(t@),
        None => None,
    }
}

impl View for Location {
    type V = Place;

    open spec fn view(&self) -> Place {
        Place {
            country: text_view(self.country),
            region: text_view(self.region),
            city: text_view(self.city),
        }
    }
}

impl<'a> View for RenderVars<'a> {
    type V = Subject;

    open spec fn view(&self) -> Subject {
        Subject {
            date: match self.date {
                Some(d) => Some(d@),
                None => None,
            },
            location: match self.location {
                Some(l) => Some(l@),
                None => None,
            },
            camera_make: match self.camera_make {
                Some(t) => Some(t@),
                None => None,
            },
            camera_model: match self.camera_model {
                Some(t) => Some(t@),
                None => None,
            },
        }
    }
}

impl Default for Location {
    fn default() -> (r: Location)
        ensures
            r@ == (Place { country: None, region: None, city: None }),
    {
        Location { country: None, region: None, city: None }
    }
}

impl<'a> Default for RenderVars<'a> {
    fn default() -> (r: RenderVars<'a>)
        ensures
            r@ == (Subject { date: None, location: None, camera_make: None, camera_model: None }),
    {
        RenderVars { date: None, location: None, camera_make: None, camera_model: None }
    }
}

pub open spec fn month_name(month: int) -> Seq<char> {
    if month == 1 {
        "January"@
    } else if month == 2 {
        "February"@
    } else if month == 3 {
        "March"@
    } else if month == 4 {
        "April"@
    } else if month == 5 {
        "May"@
    } else if month == 6 {
        "June"@
    } else if month == 7 {
        "July"@
    } else if month == 8 {
        "August"@
    } else if month == 9 {
        "September"@
    } else if month == 10 {
        "October"@
    } else if month == 11 {
        "November"@
    } else {
        "December"@
    }
}

pub open spec fn place_value(location: Option<Place>, var: Var) -> Option<Seq<char>> {
    match location {
        None => None,
        Some(place) => match var {
            Var::Country => place.country,
            Var::Region => place.region,
            Var::City => place.city,
            _ => None,
        },
    }
}

/// What a variable stands for, where the photo has it.
pub open spec fn var_value(var: Var, s: Subject) -> Option<Seq<char>> {
    match var {
        Var::Country | Var::Region | Var::City => place_value(s.location, var),
        Var::CameraMake => s.camera_make,
        Var::CameraModel => s.camera_model,
        _ => match s.date {
            None => None,
            Some(d) => Some(
                match var {
                    Var::Year => signed_decimal(d.year),
                    Var::Month => signed_decimal(d.month),
                    Var::MonthName => month_name(d.month),
                    Var::Day => signed_decimal(d.day),
                    Var::IsoYear => signed_decimal(iso_year(d)),
                    _ => signed_decimal(iso_week_number(d)),
                },
            ),
        },
    }
}

pub open spec fn placeholder_of(var: Var) -> Seq<char> {
    match class_of(var) {
        Class::Date => sanitize::UNKNOWN_DATE@,
        Class::Location => sanitize::UNKNOWN_LOCATION@,
        Class::Camera => "unknown-camera"@,
    }
}

/// Zeros put in front until the text has `width` characters.
pub open spec fn padded(s: Seq<char>, width: nat) -> Seq<char> {
    if s.len() < width {
        Seq::new((width - s.len()) as nat, |i: int| '0') + s
    } else {
        s
    }
}

pub open spec fn token_text(token: Token, s: Subject) -> Seq<char> {
    match token {
        Token::Char(c) => seq![c],
        Token::Field { var, pad } => match var_value(var, s) {
            Some(v) => padded(v, pad as nat),
            None => placeholder_of(var),
        },
    }
}

/// The text of a path component before it is sanitized.
pub open spec fn segment_text(seg: Seq<Token>, s: Subject) -> Seq<char>
    decreases seg.len(),
{
    if seg.len() == 0 {
        seq![]
    } else {
        segment_text(seg.drop_last(), s) + token_text(seg.last(), s)
    }
}

/// Whether a path component has a variable of the class.
pub open spec fn mentions(seg: Seq<Token>, class: Class) -> bool {
    exists|i: int|
        0 <= i < seg.len() && (#[trigger] seg[i] matches Token::Field { var, .. } && class_of(var)
            == class)
}

/// A path component made of places alone, none of which is known.
pub open spec fn is_placeless(seg: Seq<Token>, s: Subject) -> bool {
    &&& mentions(seg, Class::Location)
    &&& forall|i: int|
        0 <= i < seg.len() ==> (#[trigger] seg[i] matches Token::Field { var, .. } ==> class_of(var)
            == Class::Location && var_value(var, s) is None)
}

/// A path component that needs a date where there is none.
pub open spec fn is_dateless(seg: Seq<Token>, s: Subject) -> bool {
    mentions(seg, Class::Date) && s.date is None
}

/// The components of the rendered path, and whether `unknown-date` is one of
/// them for want of a date.
pub open spec fn parts_of(segs: Seq<Seq<Token>>, s: Subject) -> (Seq<Seq<char>>, bool)
    decreases segs.len(),
{
    if segs.len() == 0 {
        (seq![], false)
    } else {
        let (out, undated) = parts_of(segs.drop_last(), s);
        let seg = segs.last();
        if is_placeless(seg, s) {
            (out, undated)
        } else if is_dateless(seg, s) {
            if undated {
                (out, true)
            } else {
                (out.push(sanitize::UNKNOWN_DATE@), true)
            }
        } else {
            (out.push(component_of(nfc_text(segment_text(seg, s)))), undated)
        }
    }
}

/// The directories that a photo goes to, outermost first.
pub open spec fn rendered(segs: Seq<Seq<Token>>, s: Subject) -> Seq<Seq<char>> {
    let out = parts_of(segs, s).0;
    if out.len() == 0 {
        seq![sanitize::UNKNOWN_DATE@]
    } else {
        out
    }
}

pub fn month_text(month: u32) -> (r: &'static str)
    requires
        1 <= month <= 12,
    ensures
        r@ == month_name(month as int),
{
    match month {
        1 => "January",
        2 => "February",
        3 => "March",
        4 => "April",
        5 => "May",
        6 => "June",
        7 => "July",
        8 => "August",
        9 => "September",
        10 => "October",
        11 => "November",
        _ => "December",
    }
}

fn placeholder_for(var: Var) -> (r: &'static str)
    ensures
        r@ == placeholder_of(var),
{
    match var.class() {
        Class::Date => sanitize::UNKNOWN_DATE,
        Class::Location => sanitize::UNKNOWN_LOCATION,
        Class::Camera => "unknown-camera",
    }
}

fn chars_of_option(t: &Option<String>) -> (r: Option<Vec<char>>)
    ensures
        match r {
            Some(v) => text_view(*t) == Some(v@),
            None => text_view(*t) is None,
        },
{
    match t {
        Some(t) => Some(chars_of(t.as_str())),
        None => None,
    }
}

fn location_value(location: Option<&Location>, var: Var) -> (r: Option<Vec<char>>)
    ensures
        match r {
            Some(v) => location matches Some(l) && place_value(Some(l@), var) == Some(v@),
            None => location matches Some(l) ==> place_value(Some(l@), var) is None,
        },
{
    match location {
        None => None,
        Some(l) => match var {
            Var::Country => chars_of_option(&l.country),
            Var::Region => chars_of_option(&l.region),
            Var::City => chars_of_option(&l.city),
            _ => None,
        },
    }
}

fn value_of(var: Var, vars: &RenderVars) -> (r: Option<Vec<char>>)
    ensures
        match r {
            Some(v) => var_value(var, vars@) == Some(v@),
            None => var_value(var, vars@) is None,
        },
{
    match var {
        Var::Country | Var::Region | Var::City => location_value(vars.location, var),
        Var::CameraMake => match vars.camera_make {
            Some(t) => Some(chars_of(t)),
            None => None,
        },
        Var::CameraModel => match vars.camera_model {
            Some(t) => Some(chars_of(t)),
            None => None,
        },
        _ => match vars.date {
            None => None,
            Some(d) => Some(
                match var {
                    Var::Year => signed_chars(d.year() as i64),
                    Var::Month => signed_chars(d.month() as i64),
                    Var::MonthName => chars_of(month_text(d.month())),
                    Var::Day => signed_chars(d.day() as i64),
                    // The ISO year and week come from the same call: the last
                    // days of December can belong to week 1 of the next year.
                    Var::IsoYear => signed_chars(d.iso_week().0 as i64),
                    _ => signed_chars(d.iso_week().1 as i64),
                },
            ),
        },
    }
}

fn push_padded(out: &mut Vec<char>, v: &[char], width: usize)
    ensures
        final(out)@ == old(out)@ + padded(v@, width as nat),
{
    let mut n: usize = v.len();
    let ghost zeros = |k: int| Seq::new(k as nat, |i: int| '0');
    assert(out@ =~= old(out)@ + zeros(0));
    while n < width
        invariant
            v@.len() <= n,
            n <= width || n == v@.len(),
            zeros == (|k: int| Seq::new(k as nat, |i: int| '0')),
            out@ == old(out)@ + zeros(n - v@.len()),
        decreases width - n,
    {
        out.push('0');
        n += 1;
        assert(zeros(n - v@.len()) =~= zeros(n - 1 - v@.len()).push('0'));
    }
    push_all(out, v);
    assert(out@ =~= old(out)@ + padded(v@, width as nat));
}

fn has_class(seg: &[Token], class: Class) -> (b: bool)
    ensures
        b == mentions(seg@, class),
{
    let mut i: usize = 0;
    while i < seg.len()
        invariant
            i <= seg@.len(),
            forall|j: int|
                0 <= j < i ==> (#[trigger] seg@[j] matches Token::Field { var, .. } ==> class_of(
                    var,
                ) != class),
        decreases seg@.len() - i,
    {
        if let Token::Field { var, .. } = seg[i] {
            if var.class() == class {
                assert(seg@[i as int] matches Token::Field { var, .. } && class_of(var) == class);
                return true;
            }
        }
        i += 1;
    }
    false
}

fn placeless(seg: &[Token], vars: &RenderVars) -> (b: bool)
    ensures
        b == is_placeless(seg@, vars@),
{
    if !has_class(seg, Class::Location) {
        return false;
    }
    let mut i: usize = 0;
    while i < seg.len()
        invariant
            i <= seg@.len(),
            mentions(seg@, Class::Location),
            forall|j: int|
                0 <= j < i ==> (#[trigger] seg@[j] matches Token::Field { var, .. } ==> class_of(
                    var,
                ) == Class::Location && var_value(var, vars@) is None),
        decreases seg@.len() - i,
    {
        if let Token::Field { var, .. } = seg[i] {
            if var.class() != Class::Location {
                return false;
            }
            if value_of(var, vars).is_some() {
                return false;
            }
        }
        i += 1;
    }
    true
}

fn segment_chars(seg: &[Token], vars: &RenderVars) -> (r: Vec<char>)
    ensures
        r@ == segment_text(seg@, vars@),
{
    let mut out: Vec<char> = Vec::new();
    let mut i: usize = 0;
    while i < seg.len()
        invariant
            i <= seg@.len(),
            out@ == segment_text(seg@.take(i as int), vars@),
        decreases seg@.len() - i,
    {
        assert(seg@.take(i + 1).drop_last() =~= seg@.take(i as int));
        match seg[i] {
            Token::Char(c) => out.push(c),
            Token::Field { var, pad } => match value_of(var, vars) {
                Some(v) => push_padded(&mut out, &v, pad),
                None => push_text(&mut out, placeholder_for(var)),
            },
        }
        assert(out@ =~= segment_text(seg@.take(i + 1), vars@));
        i += 1;
    }
    assert(seg@.take(i as int) =~= seg@);
    out
}

impl Template {
    /// Does rendering this template need a reverse-geocode lookup?
    pub fn uses_location(&self) -> (b: bool)
        ensures
            b == exists|k: int| 0 <= k < self@.len() && mentions(#[trigger] self@[k], Class::Location),
    {
        let mut k: usize = 0;
        while k < self.segments.len()
            invariant
                k <= self.segments@.len(),
                forall|j: int| 0 <= j < k ==> !mentions(#[trigger] self@[j], Class::Location),
            decreases self.segments@.len() - k,
        {
            assert(self@[k as int] == self.segments@[k as int]@);
            if has_class(&self.segments[k], Class::Location) {
                return true;
            }
            k += 1;
        }
        false
    }

    /// Render to a relative directory path, sanitizing every component.
    ///
    /// A segment whose variables are all unresolved location fields is dropped;
    /// unresolved dates collapse to a single `unknown-date` component.
    pub fn render(&self, vars: &RenderVars) -> (r: String)
        ensures
            r@ == joined(rendered(self@, vars@)),
    {
        let mut out: Vec<char> = Vec::new();
        let mut undated = false;
        let mut k: usize = 0;
        let ghost segs = self@;
        let ghost subject = vars@;
        assert(joined(Seq::<Seq<char>>::empty()) =~= out@);
        let mut empty = true;
        while k < self.segments.len()
            invariant
                k <= self.segments@.len(),
                segs == self@,
                subject == vars@,
                out@ == joined(parts_of(segs.take(k as int), subject).0),
                empty == (parts_of(segs.take(k as int), subject).0.len() == 0),
                undated == parts_of(segs.take(k as int), subject).1,
            decreases self.segments@.len() - k,
        {
            let ghost done = parts_of(segs.take(k as int), subject).0;
            let seg = &self.segments[k];
            proof {
                assert(segs[k as int] == seg@);
                assert(segs.take(k + 1).drop_last() =~= segs.take(k as int));
                assert(segs.take(k + 1).last() == seg@);
            }
            if placeless(seg, vars) {
            } else if has_class(seg, Class::Date) && vars.date.is_none() {
                if !undated {
                    push_part(&mut out, empty, &chars_of(sanitize::UNKNOWN_DATE), Ghost(done));
                    empty = false;
                    undated = true;
                }
            } else {
                let text = segment_chars(seg, vars);
                let part = sanitize::component(text_of(&text).as_str());
                push_part(&mut out, empty, &chars_of(part.as_str()), Ghost(done));
                empty = false;
            }
            k += 1;
        }
        assert(segs.take(k as int) =~= segs);
        if empty {
            push_text(&mut out, sanitize::UNKNOWN_DATE);
            proof {
                reveal_with_fuel(joined, 2);
                assert(out@ =~= sanitize::UNKNOWN_DATE@);
            }
        }
        text_of(&out)
    }
}

fn push_part(out: &mut Vec<char>, first: bool, part: &[char], Ghost(done): Ghost<Seq<Seq<char>>>)
    requires
        old(out)@ == joined(done),
        first == (done.len() == 0),
    ensures
        final(out)@ == joined(done.push(part@)),
{
    if !first {
        out.push('/');
    }
    push_all(out, part);
    proof {
        assert(done.push(part@).drop_last() =~= done);
        assert(out@ =~= joined(done.push(part@)));
    }
}

proof fn lemma_unknown_date_is_clean()
    ensures
        is_clean(sanitize::UNKNOWN_DATE@),
{
    reveal_strlit("unknown-date");
    let u = sanitize::UNKNOWN_DATE@;
    lemma_byte_len_positive(u);
    assert forall|i: int| 0 <= i < u.len() implies !seq!['.'].contains(#[trigger] u[i]) by {}
    lemma_find_any_is(u, seq!['.'], 0, u.len() as int);
    assert(u.take(u.len() as int) =~= u);
    assert(lower(u).len() == 12);
}

/// Whatever is rendered, the path has at least one component and every
/// component is clean, so that none of them is `..`, is empty or holds a slash.
pub proof fn rendered_parts_are_clean(segs: Seq<Seq<Token>>, s: Subject)
    ensures
        rendered(segs, s).len() > 0,
        forall|k: int| 0 <= k < rendered(segs, s).len() ==> is_clean(#[trigger] rendered(segs, s)[k]),
{
    lemma_unknown_date_is_clean();
    lemma_parts_are_clean(segs, s);
}

proof fn lemma_parts_are_clean(segs: Seq<Seq<Token>>, s: Subject)
    ensures
        forall|k: int|
            0 <= k < parts_of(segs, s).0.len() ==> is_clean(#[trigger] parts_of(segs, s).0[k]),
    decreases segs.len(),
{
    if segs.len() > 0 {
        lemma_parts_are_clean(segs.drop_last(), s);
        lemma_unknown_date_is_clean();
        sanitize::component_is_clean(nfc_text(segment_text(segs.last(), s)));
        let out = parts_of(segs.drop_last(), s).0;
        let all = parts_of(segs, s).0;
        assert forall|k: int| 0 <= k < all.len() implies is_clean(#[trigger] all[k]) by {
            if k < out.len() {
                assert(all[k] == out[k]);
            }
        }
    }
}

/// A rendered path falls apart at its slashes into the rendered components.
pub proof fn rendered_path_splits(segs: Seq<Seq<Token>>, s: Subject)
    ensures
        split_any(joined(rendered(segs, s)), seq!['/']) == rendered(segs, s),
{
    rendered_parts_are_clean(segs, s);
    let parts = rendered(segs, s);
    assert forall|k: int| 0 <= k < parts.len() implies !(#[trigger] parts[k]).contains('/') by {
        assert(is_clean(parts[k]));
        if parts[k].contains('/') {
            let i = choose|i: int| 0 <= i < parts[k].len() && parts[k][i] == '/';
            assert(sanitize::is_illegal(parts[k][i]));
        }
    }
    joined_splits_back(parts);
}

/// Without a date, a template made of dates alone renders to `unknown-date`.
pub proof fn missing_dates_collapse(segs: Seq<Seq<Token>>, s: Subject)
    requires
        s.date is None,
        forall|k: int| 0 <= k < segs.len() ==> mentions(#[trigger] segs[k], Class::Date),
    ensures
        rendered(segs, s) == seq![sanitize::UNKNOWN_DATE@],
{
    lemma_missing_dates(segs, s);
}

proof fn lemma_missing_dates(segs: Seq<Seq<Token>>, s: Subject)
    requires
        s.date is None,
        forall|k: int| 0 <= k < segs.len() ==> mentions(#[trigger] segs[k], Class::Date),
    ensures
        segs.len() > 0 ==> parts_of(segs, s) == (seq![sanitize::UNKNOWN_DATE@], true),
    decreases segs.len(),
{
    if segs.len() > 0 {
        assert forall|k: int| 0 <= k < segs.drop_last().len() implies mentions(
            #[trigger] segs.drop_last()[k],
            Class::Date,
        ) by {
            assert(segs.drop_last()[k] == segs[k]);
        }
        lemma_missing_dates(segs.drop_last(), s);
        let seg = segs.last();
        assert(mentions(segs[segs.len() - 1], Class::Date));
        let i = choose|i: int|
            0 <= i < seg.len() && (#[trigger] seg[i] matches Token::Field { var, .. } && class_of(
                var,
            ) == Class::Date);
        assert(!is_placeless(seg, s));
        if segs.len() == 1 {
            assert(parts_of(segs.drop_last(), s) == (Seq::<Seq<char>>::empty(), false));
        }
        assert(Seq::<Seq<char>>::empty().push(sanitize::UNKNOWN_DATE@) =~= seq![
            sanitize::UNKNOWN_DATE@,
        ]);
    }
}

proof fn lemma_prefix_step(marks: Seq<Mark>, next: Mark, rest: Result<Seq<Mark>, Flaw>)
    ensures
        prefixed(marks, prefixed(seq![next], rest)) == prefixed(marks.push(next), rest),
        grouped(marks.push(next)) == (match next {
            Mark::Slash => (closed_off(grouped(marks).0, grouped(marks).1), seq![]),
            Mark::Part(token) => (grouped(marks).0, grouped(marks).1.push(token)),
        }),
{
    assert(marks.push(next).drop_last() =~= marks);
    if let Ok(r) = rest {
        assert(marks + (seq![next] + r) =~= marks.push(next) + r);
    }
}

} // verus!
