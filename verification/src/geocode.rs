//! Offline reverse geocoding.
//!
//! GeoNames `cities1000` and a nearest-neighbour lookup: microseconds per query,
//! deterministic, no network and no rate limits. The lookup itself is arithmetic
//! on floating-point degrees and stands outside; what is made of the place that
//! it finds, and what is remembered of it, stands here.

use crate::cities::{Found, Place};
use crate::config::LocationDepth;
use crate::metadata::Gps;
use crate::template::{Location, Place as PlaceNames};
use crate::text::{
    chars_of, is_core, is_white, same_text, text_of, trim, trimmed, trimming_keeps_the_core, upper,
    uppered,
};
use std::collections::HashMap;
use vstd::prelude::*;

verus! {

/// Cache granularity: 3 decimals is ~100 m, so a burst of shots from one spot
/// shares a single lookup.
pub const CACHE_SCALE: u32 = 1000;

/// ISO 3166-1 alpha-2 codes and country names, by code.
pub const COUNTRIES: [(&'static str, &'static str); 250] = [
    ("AD", "Andorra"),
    ("AE", "United Arab Emirates"),
    ("AF", "Afghanistan"),
    ("AG", "Antigua and Barbuda"),
    ("AI", "Anguilla"),
    ("AL", "Albania"),
    ("AM", "Armenia"),
    ("AO", "Angola"),
    ("AQ", "Antarctica"),
    ("AR", "Argentina"),
    ("AS", "American Samoa"),
    ("AT", "Austria"),
    ("AU", "Australia"),
    ("AW", "Aruba"),
    ("AX", "Aland Islands"),
    ("AZ", "Azerbaijan"),
    ("BA", "Bosnia and Herzegovina"),
    ("BB", "Barbados"),
    ("BD", "Bangladesh"),
    ("BE", "Belgium"),
    ("BF", "Burkina Faso"),
    ("BG", "Bulgaria"),
    ("BH", "Bahrain"),
    ("BI", "Burundi"),
    ("BJ", "Benin"),
    ("BL", "Saint Barthelemy"),
    ("BM", "Bermuda"),
    ("BN", "Brunei"),
    ("BO", "Bolivia"),
    ("BQ", "Caribbean Netherlands"),
    ("BR", "Brazil"),
    ("BS", "Bahamas"),
    ("BT", "Bhutan"),
    ("BV", "Bouvet Island"),
    ("BW", "Botswana"),
    ("BY", "Belarus"),
    ("BZ", "Belize"),
    ("CA", "Canada"),
    ("CC", "Cocos Islands"),
    ("CD", "DR Congo"),
    ("CF", "Central African Republic"),
    ("CG", "Congo"),
    ("CH", "Switzerland"),
    ("CI", "Ivory Coast"),
    ("CK", "Cook Islands"),
    ("CL", "Chile"),
    ("CM", "Cameroon"),
    ("CN", "China"),
    ("CO", "Colombia"),
    ("CR", "Costa Rica"),
    ("CU", "Cuba"),
    ("CV", "Cape Verde"),
    ("CW", "Curacao"),
    ("CX", "Christmas Island"),
    ("CY", "Cyprus"),
    ("CZ", "Czechia"),
    ("DE", "Germany"),
    ("DJ", "Djibouti"),
    ("DK", "Denmark"),
    ("DM", "Dominica"),
    ("DO", "Dominican Republic"),
    ("DZ", "Algeria"),
    ("EC", "Ecuador"),
    ("EE", "Estonia"),
    ("EG", "Egypt"),
    ("EH", "Western Sahara"),
    ("ER", "Eritrea"),
    ("ES", "Spain"),
    ("ET", "Ethiopia"),
    ("FI", "Finland"),
    ("FJ", "Fiji"),
    ("FK", "Falkland Islands"),
    ("FM", "Micronesia"),
    ("FO", "Faroe Islands"),
    ("FR", "France"),
    ("GA", "Gabon"),
    ("GB", "United Kingdom"),
    ("GD", "Grenada"),
    ("GE", "Georgia"),
    ("GF", "French Guiana"),
    ("GG", "Guernsey"),
    ("GH", "Ghana"),
    ("GI", "Gibraltar"),
    ("GL", "Greenland"),
    ("GM", "Gambia"),
    ("GN", "Guinea"),
    ("GP", "Guadeloupe"),
    ("GQ", "Equatorial Guinea"),
    ("GR", "Greece"),
    ("GS", "South Georgia and the South Sandwich Islands"),
    ("GT", "Guatemala"),
    ("GU", "Guam"),
    ("GW", "Guinea-Bissau"),
    ("GY", "Guyana"),
    ("HK", "Hong Kong"),
    ("HM", "Heard Island and McDonald Islands"),
    ("HN", "Honduras"),
    ("HR", "Croatia"),
    ("HT", "Haiti"),
    ("HU", "Hungary"),
    ("ID", "Indonesia"),
    ("IE", "Ireland"),
    ("IL", "Israel"),
    ("IM", "Isle of Man"),
    ("IN", "India"),
    ("IO", "British Indian Ocean Territory"),
    ("IQ", "Iraq"),
    ("IR", "Iran"),
    ("IS", "Iceland"),
    ("IT", "Italy"),
    ("JE", "Jersey"),
    ("JM", "Jamaica"),
    ("JO", "Jordan"),
    ("JP", "Japan"),
    ("KE", "Kenya"),
    ("KG", "Kyrgyzstan"),
    ("KH", "Cambodia"),
    ("KI", "Kiribati"),
    ("KM", "Comoros"),
    ("KN", "Saint Kitts and Nevis"),
    ("KP", "North Korea"),
    ("KR", "South Korea"),
    ("KW", "Kuwait"),
    ("KY", "Cayman Islands"),
    ("KZ", "Kazakhstan"),
    ("LA", "Laos"),
    ("LB", "Lebanon"),
    ("LC", "Saint Lucia"),
    ("LI", "Liechtenstein"),
    ("LK", "Sri Lanka"),
    ("LR", "Liberia"),
    ("LS", "Lesotho"),
    ("LT", "Lithuania"),
    ("LU", "Luxembourg"),
    ("LV", "Latvia"),
    ("LY", "Libya"),
    ("MA", "Morocco"),
    ("MC", "Monaco"),
    ("MD", "Moldova"),
    ("ME", "Montenegro"),
    ("MF", "Saint Martin"),
    ("MG", "Madagascar"),
    ("MH", "Marshall Islands"),
    ("MK", "North Macedonia"),
    ("ML", "Mali"),
    ("MM", "Myanmar"),
    ("MN", "Mongolia"),
    ("MO", "Macao"),
    ("MP", "Northern Mariana Islands"),
    ("MQ", "Martinique"),
    ("MR", "Mauritania"),
    ("MS", "Montserrat"),
    ("MT", "Malta"),
    ("MU", "Mauritius"),
    ("MV", "Maldives"),
    ("MW", "Malawi"),
    ("MX", "Mexico"),
    ("MY", "Malaysia"),
    ("MZ", "Mozambique"),
    ("NA", "Namibia"),
    ("NC", "New Caledonia"),
    ("NE", "Niger"),
    ("NF", "Norfolk Island"),
    ("NG", "Nigeria"),
    ("NI", "Nicaragua"),
    ("NL", "Netherlands"),
    ("NO", "Norway"),
    ("NP", "Nepal"),
    ("NR", "Nauru"),
    ("NU", "Niue"),
    ("NZ", "New Zealand"),
    ("OM", "Oman"),
    ("PA", "Panama"),
    ("PE", "Peru"),
    ("PF", "French Polynesia"),
    ("PG", "Papua New Guinea"),
    ("PH", "Philippines"),
    ("PK", "Pakistan"),
    ("PL", "Poland"),
    ("PM", "Saint Pierre and Miquelon"),
    ("PN", "Pitcairn Islands"),
    ("PR", "Puerto Rico"),
    ("PS", "Palestine"),
    ("PT", "Portugal"),
    ("PW", "Palau"),
    ("PY", "Paraguay"),
    ("QA", "Qatar"),
    ("RE", "Reunion"),
    ("RO", "Romania"),
    ("RS", "Serbia"),
    ("RU", "Russia"),
    ("RW", "Rwanda"),
    ("SA", "Saudi Arabia"),
    ("SB", "Solomon Islands"),
    ("SC", "Seychelles"),
    ("SD", "Sudan"),
    ("SE", "Sweden"),
    ("SG", "Singapore"),
    ("SH", "Saint Helena"),
    ("SI", "Slovenia"),
    ("SJ", "Svalbard and Jan Mayen"),
    ("SK", "Slovakia"),
    ("SL", "Sierra Leone"),
    ("SM", "San Marino"),
    ("SN", "Senegal"),
    ("SO", "Somalia"),
    ("SR", "Suriname"),
    ("SS", "South Sudan"),
    ("ST", "Sao Tome and Principe"),
    ("SV", "El Salvador"),
    ("SX", "Sint Maarten"),
    ("SY", "Syria"),
    ("SZ", "Eswatini"),
    ("TC", "Turks and Caicos Islands"),
    ("TD", "Chad"),
    ("TF", "French Southern Territories"),
    ("TG", "Togo"),
    ("TH", "Thailand"),
    ("TJ", "Tajikistan"),
    ("TK", "Tokelau"),
    ("TL", "Timor-Leste"),
    ("TM", "Turkmenistan"),
    ("TN", "Tunisia"),
    ("TO", "Tonga"),
    ("TR", "Turkiye"),
    ("TT", "Trinidad and Tobago"),
    ("TV", "Tuvalu"),
    ("TW", "Taiwan"),
    ("TZ", "Tanzania"),
    ("UA", "Ukraine"),
    ("UG", "Uganda"),
    ("UM", "United States Minor Outlying Islands"),
    ("US", "United States"),
    ("UY", "Uruguay"),
    ("UZ", "Uzbekistan"),
    ("VA", "Vatican City"),
    ("VC", "Saint Vincent and the Grenadines"),
    ("VE", "Venezuela"),
    ("VG", "British Virgin Islands"),
    ("VI", "U.S. Virgin Islands"),
    ("VN", "Vietnam"),
    ("VU", "Vanuatu"),
    ("WF", "Wallis and Futuna"),
    ("WS", "Samoa"),
    ("XK", "Kosovo"),
    ("YE", "Yemen"),
    ("YT", "Mayotte"),
    ("ZA", "South Africa"),
    ("ZM", "Zambia"),
    ("ZW", "Zimbabwe"),
];

/// The name under which a code stands in the table from the `i`th line on.
pub open spec fn listed(code: Seq<char>, i: int) -> Option<Seq<char>>
    decreases 250 - i,
{
    if i < 0 || i >= 250 {
        None
    } else if COUNTRIES@[i].0@ == code {
        Some(COUNTRIES@[i].1@)
    } else {
        listed(code, i + 1)
    }
}

/// A country by its code; an unknown code stands for itself, an empty one for no
/// country.
pub open spec fn country_of(cc: Seq<char>) -> Option<Seq<char>> {
    let code = upper(trim(cc));
    if trim(cc).len() == 0 {
        None
    } else {
        match listed(code, 0) {
            Some(name) => Some(name),
            None => Some(code),
        }
    }
}

/// A text without the white space around it; an empty one is none.
pub open spec fn if_any(s: Seq<char>) -> Option<Seq<char>> {
    if trim(s).len() > 0 {
        Some(trim(s))
    } else {
        None
    }
}

/// The country, the region and the city of a place, as deep as is wanted.
pub open spec fn names_of(place: Found, depth: LocationDepth) -> PlaceNames {
    PlaceNames {
        country: country_of(place.cc),
        region: if depth is Country {
            None
        } else {
            if_any(place.region)
        },
        city: if depth is City {
            if_any(place.name)
        } else {
            None
        },
    }
}

/// What a lookup resolves to.
pub open spec fn resolved(place: Option<Found>, depth: LocationDepth) -> Option<PlaceNames> {
    match place {
        Some(place) => Some(names_of(place, depth)),
        None => None,
    }
}

fn non_empty(s: &str) -> (r: Option<String>)
    ensures
        match r {
            Some(t) => if_any(s@) == Some(t@),
            None => if_any(s@) is None,
        },
{
    let v = chars_of(s);
    let t = trimmed(&v);
    if t.len() > 0 {
        Some(text_of(t))
    } else {
        None
    }
}

/// ISO 3166-1 alpha-2 to country name. GeoNames stores only the code, and
/// `2026/08/HR` is not what anyone asked for. Unknown codes pass through.
pub fn country_name(cc: &str) -> (r: Option<String>)
    ensures
        match r {
            Some(t) => country_of(cc@) == Some(t@),
            None => country_of(cc@) is None,
        },
{
    let v = chars_of(cc);
    let code = trimmed(&v);
    if code.len() == 0 {
        return None;
    }
    let code = text_of(&uppered(code));
    let mut i: usize = 0;
    while i < 250
        invariant
            code@ == upper(trim(cc@)),
            trim(cc@).len() > 0,
            i <= 250,
            listed(code@, 0) == listed(code@, i as int),
        decreases 250 - i,
    {
        let line = COUNTRIES[i];
        if same_text(line.0, code.as_str()) {
            return Some(text_of(&chars_of(line.1)));
        }
        i += 1;
    }
    Some(code)
}

/// The cell of the lookup grid as one number.
pub open spec fn cell_key(g: Gps) -> int {
    (g.cell_lat + 0x8000_0000) * 0x1_0000_0000 + (g.cell_lon + 0x8000_0000)
}

fn cell_number(g: &Gps) -> (n: u64)
    ensures
        n == cell_key(*g),
{
    let lat: u64 = (g.cell_lat as i64 + 0x8000_0000) as u64;
    let lon: u64 = (g.cell_lon as i64 + 0x8000_0000) as u64;
    lat * 0x1_0000_0000 + lon
}

/// Points of one cell, and only those, share a number.
pub proof fn cells_are_told_apart(a: Gps, b: Gps)
    ensures
        cell_key(a) == cell_key(b) <==> a.cell_lat == b.cell_lat && a.cell_lon == b.cell_lon,
        0 <= cell_key(a) <= u64::MAX,
{
}

/// Turns places into folder names, and remembers what it made of each cell.
pub struct Locator {
    depth: LocationDepth,
    cache: HashMap<u64, Option<Location>>,
}

pub open spec fn names_view(l: Option<Location>) -> Option<PlaceNames> {
    match l {
        Some(l) => Some(l@),
        None => None,
    }
}

/// What a `Locator` stands for: how deep it names places, and what it has
/// resolved by cell.
pub struct Atlas {
    pub depth: LocationDepth,
    pub cells: Map<int, Option<PlaceNames>>,
}

impl View for Locator {
    type V = Atlas;

    closed spec fn view(&self) -> Atlas {
        Atlas {
            depth: self.depth,
            cells: Map::new(
                |k: int| 0 <= k <= u64::MAX && self.cache@.dom().contains(k as u64),
                |k: int| names_view(self.cache@[k as u64]),
            ),
        }
    }
}

fn copy_text(t: &Option<String>) -> (r: Option<String>)
    ensures
        crate::template::text_view(r) == crate::template::text_view(*t),
{
    match t {
        Some(t) => Some(t.clone()),
        None => None,
    }
}

fn copy_location(l: &Option<Location>) -> (r: Option<Location>)
    ensures
        names_view(r) == names_view(*l),
{
    match l {
        Some(l) => Some(
            Location {
                country: copy_text(&l.country),
                region: copy_text(&l.region),
                city: copy_text(&l.city),
            },
        ),
        None => None,
    }
}

impl Locator {
    pub fn new(depth: LocationDepth) -> (r: Locator)
        ensures
            r@ == (Atlas { depth, cells: Map::<int, Option<PlaceNames>>::empty() }),
    {
        let r = Locator { depth, cache: HashMap::new() };
        assert(r@.cells =~= Map::<int, Option<PlaceNames>>::empty());
        r
    }

    /// What is remembered of the cell of a point.
    pub fn cached(&self, g: &Gps) -> (r: Option<Option<Location>>)
        ensures
            match r {
                Some(l) => self@.cells.dom().contains(cell_key(*g)) && self@.cells[cell_key(*g)]
                    == names_view(l),
                None => !self@.cells.dom().contains(cell_key(*g)),
            },
    {
        match self.cache.get(&cell_number(g)) {
            Some(l) => Some(copy_location(l)),
            None => None,
        }
    }

    /// Resolves a point to the place that is nearest to it and remembers the
    /// answer for the whole cell.
    pub fn lookup(&mut self, g: &Gps, nearest: Option<Place>) -> (r: Option<Location>)
        ensures
            names_view(r) == (if old(self)@.cells.dom().contains(cell_key(*g)) {
                old(self)@.cells[cell_key(*g)]
            } else {
                resolved(found_view(nearest), old(self)@.depth)
            }),
            final(self)@.depth == old(self)@.depth,
            final(self)@.cells == old(self)@.cells.insert(cell_key(*g), names_view(r)),
    {
        if let Some(hit) = self.cached(g) {
            assert(old(self)@.cells =~= old(self)@.cells.insert(cell_key(*g), names_view(hit)));
            return hit;
        }
        let key = cell_number(g);
        let found = self.resolve(nearest);
        let kept = copy_location(&found);
        self.cache.insert(key, kept);
        proof {
            assert(self@.cells =~= old(self)@.cells.insert(cell_key(*g), names_view(found)));
        }
        found
    }

    /// How many cells are remembered.
    pub fn cached_queries(&self) -> (n: usize)
        ensures
            n == self@.cells.dom().len(),
    {
        let n = self.cache.len();
        proof {
            lemma_cells(self.cache@, self@.cells);
        }
        n
    }

    fn resolve(&self, nearest: Option<Place>) -> (r: Option<Location>)
        ensures
            names_view(r) == resolved(found_view(nearest), self@.depth),
    {
        match nearest {
            None => None,
            Some(hit) => {
                let country = country_name(hit.cc.as_str());
                // Nearest populated place: country and region are reliable, the
                // "city" may be a town 30 km away (documented, not hidden).
                let region = match self.depth {
                    LocationDepth::Country => None,
                    _ => non_empty(hit.region.as_str()),
                };
                let city = match self.depth {
                    LocationDepth::City => non_empty(hit.name.as_str()),
                    _ => None,
                };
                Some(Location { country, region, city })
            },
        }
    }
}

pub open spec fn found_view(p: Option<Place>) -> Option<Found> {
    match p {
        Some(p) => Some(p@),
        None => None,
    }
}

proof fn lemma_cells(cache: Map<u64, Option<Location>>, cells: Map<int, Option<PlaceNames>>)
    requires
        cache.dom().finite(),
        cells == Map::new(
            |k: int| 0 <= k <= u64::MAX && cache.dom().contains(k as u64),
            |k: int| names_view(cache[k as u64]),
        ),
    ensures
        cells.dom().len() == cache.dom().len(),
{
    let f = |k: u64| k as int;
    let image = cache.dom().map(f);
    assert(image =~= cells.dom()) by {
        assert forall|k: int| cells.dom().contains(k) implies image.contains(k) by {
            assert(f(k as u64) == k);
        }
    }
    vstd::set_lib::lemma_map_size(cache.dom(), image, f);
}

/// Whether a name is what is left of a field of a record without the white space
/// around it; a field of white space alone gives no name.
pub open spec fn is_name_in(name: Option<Seq<char>>, field: Seq<char>) -> bool {
    match name {
        Some(t) => t.len() > 0 && exists|i: int| #[trigger] is_core(field, t, i),
        None => forall|i: int| 0 <= i < field.len() ==> is_white(#[trigger] field[i]),
    }
}

proof fn lemma_if_any(field: Seq<char>)
    ensures
        is_name_in(if_any(field), field),
{
    let i = trimming_keeps_the_core(field);
    assert(is_core(field, trim(field), i));
    if trim(field).len() == 0 {
        assert forall|k: int| 0 <= k < field.len() implies is_white(#[trigger] field[k]) by {
            if k >= i {
                assert(i + trim(field).len() <= k);
            }
        }
    }
}

/// The region that a lookup tells is the region of the record and the city is the name
/// of the record, whatever else the record holds; a depth names nothing below it.
pub proof fn names_are_those_of_the_record(place: Found, depth: LocationDepth)
    ensures
        resolved(Some(place), depth) matches Some(names) && {
            &&& match depth {
                LocationDepth::Country => names.region is None,
                LocationDepth::Region | LocationDepth::City => is_name_in(
                    names.region,
                    place.region,
                ),
            }
            &&& match depth {
                LocationDepth::Country | LocationDepth::Region => names.city is None,
                LocationDepth::City => is_name_in(names.city, place.name),
            }
        },
{
    lemma_if_any(place.region);
    lemma_if_any(place.name);
}

/// A country goes by its code, in letters of either case: where the table has the code
/// it is a name that the table has for it, otherwise the code itself in capitals. A
/// record without a code has no country.
pub proof fn countries_go_by_their_codes(place: Found, depth: LocationDepth)
    ensures
        resolved(Some(place), depth) matches Some(names) && match names.country {
            None => forall|i: int| 0 <= i < place.cc.len() ==> is_white(#[trigger] place.cc[i]),
            Some(t) => exists|code: Seq<char>, at: int|
                {
                    &&& #[trigger] is_core(place.cc, code, at)
                    &&& code.len() > 0
                    &&& (exists|i: int|
                        0 <= i < 250 && (#[trigger] COUNTRIES@[i]).0@ == upper(code)
                            && COUNTRIES@[i].1@ == t) || t == upper(code) && forall|i: int|
                        0 <= i < 250 ==> (#[trigger] COUNTRIES@[i]).0@ != upper(code)
                },
        },
{
    let at = trimming_keeps_the_core(place.cc);
    let code = trim(place.cc);
    assert(is_core(place.cc, code, at));
    lemma_listed(upper(code), 0);
}

proof fn lemma_listed(code: Seq<char>, from: int)
    requires
        0 <= from,
    ensures
        match listed(code, from) {
            Some(name) => exists|i: int|
                from <= i < 250 && (#[trigger] COUNTRIES@[i]).0@ == code && COUNTRIES@[i].1@ == name,
            None => forall|i: int| from <= i < 250 ==> (#[trigger] COUNTRIES@[i]).0@ != code,
        },
    decreases 250 - from,
{
    if from < 250 && COUNTRIES@[from].0@ != code {
        lemma_listed(code, from + 1);
    }
}

/// A deeper depth only adds names: what is told at one depth is told at every deeper
/// one too.
pub proof fn deeper_depths_only_add_names(place: Found)
    ensures
        resolved(Some(place), LocationDepth::Country) matches Some(country) && resolved(
            Some(place),
            LocationDepth::Region,
        ) matches Some(region) && resolved(Some(place), LocationDepth::City) matches Some(city) && {
            &&& country.country == region.country
            &&& region.country == city.country
            &&& region.region == city.region
            &&& country.region is None && country.city is None
            &&& region.city is None
        },
{
}

/// Each name depends on one field of the record alone: records that share a field share
/// the name that it tells, at every depth. So the towns of one region share the names
/// that are told at the depth of regions.
pub proof fn records_share_the_names_of_shared_fields(a: Found, b: Found, depth: LocationDepth)
    ensures
        resolved(Some(a), depth) matches Some(x) && resolved(Some(b), depth) matches Some(y) && {
            &&& a.cc == b.cc ==> x.country == y.country
            &&& a.region == b.region ==> x.region == y.region
            &&& a.name == b.name ==> x.city == y.city
            &&& a.cc == b.cc && a.region == b.region && !(depth is City) ==> x == y
            &&& a.cc == b.cc && depth is Country ==> x == y
        },
{
}

} // verus!
