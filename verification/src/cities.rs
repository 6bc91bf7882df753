//! The GeoNames `cities1000` dataset.
//!
//! A packed blob: unused columns dropped, region names interned, coordinates
//! narrowed to `f32`, and the records written in k-d tree order, so that lookups
//! are index arithmetic over the bytes.

use vstd::bytes::{
    spec_u16_from_le_bytes, spec_u32_from_le_bytes, u16_from_le_bytes, u32_from_le_bytes,
};
use vstd::prelude::*;
use vstd::slice::slice_subrange;
use vstd::utf8::{decode_utf8, valid_utf8};

verus! {

pub const HEADER: usize = 20;

pub const RECORD: usize = 17;

/// The nearest populated place to a coordinate.
#[derive(Debug, Clone, PartialEq, Eq)]
pub struct Place {
    pub name: String,
    pub region: String,
    pub cc: String,
}

/// What a `Place` stands for.
pub struct Found {
    pub name: Seq<char>,
    pub region: Seq<char>,
    pub cc: Seq<char>,
}

impl View for Place {
    type V = Found;

    open spec fn view(&self) -> Found {
        Found { name: self.name@, region: self.region@, cc: self.cc@ }
    }
}

/// `std::str::from_utf8` succeeds exactly on UTF-8 and gives the text that the
/// bytes encode.
#[verifier::external_body]
pub(crate) fn utf8_text(bytes: &[u8]) -> (r: Option<String>)
    ensures
        match r {
            Some(s) => valid_utf8(bytes@) && s@ == decode_utf8(bytes@),
            None => !valid_utf8(bytes@),
        },
{
    match std::str::from_utf8(bytes) {
        Ok(s) => Some(s.to_string()),
        Err(_) => None,
    }
}

/// The 32-bit little-endian number at `at`.
pub open spec fn word_at(data: Seq<u8>, at: int) -> int {
    spec_u32_from_le_bytes(data.subrange(at, at + 4)) as int
}

/// Where the sections of a blob end: the records, the region offsets, the region
/// names, the place names.
pub struct Sections {
    pub count: int,
    pub records_end: int,
    pub offsets_end: int,
    pub regions_end: int,
    pub names_end: int,
}

pub open spec fn sections_of(data: Seq<u8>) -> Sections {
    let records_end = HEADER + word_at(data, 4) * RECORD;
    let offsets_end = records_end + (word_at(data, 8) + 1) * 4;
    let regions_end = offsets_end + word_at(data, 16);
    Sections {
        count: word_at(data, 4),
        records_end,
        offsets_end,
        regions_end,
        names_end: regions_end + word_at(data, 12),
    }
}

/// A blob that starts with the mark, is as long as it says, and holds text where
/// it should.
pub open spec fn is_dataset(data: Seq<u8>) -> bool {
    let s = sections_of(data);
    &&& data.len() >= HEADER
    &&& data.take(4) == seq![0x50u8, 0x47, 0x43, 0x31]
    &&& s.names_end == data.len()
    &&& valid_utf8(data.subrange(s.offsets_end, s.regions_end))
    &&& valid_utf8(data.subrange(s.regions_end, s.names_end))
}

/// A text in a section of the blob, where its bounds are in the section and its
/// bytes are UTF-8.
pub open spec fn text_in(data: Seq<u8>, from: int, to: int, a: int, b: int) -> Option<Seq<char>> {
    if 0 <= a <= b <= to - from && valid_utf8(data.subrange(from + a, from + b)) {
        Some(decode_utf8(data.subrange(from + a, from + b)))
    } else {
        None
    }
}

/// The name of the `i`th region.
pub open spec fn region_in(data: Seq<u8>, i: int) -> Option<Seq<char>> {
    let s = sections_of(data);
    let at = s.records_end + i * 4;
    if 0 <= i && at + 8 <= s.offsets_end {
        text_in(data, s.offsets_end, s.regions_end, word_at(data, at), word_at(data, at + 4))
    } else {
        None
    }
}

/// The place of the `i`th record. A country code that is no text is empty.
pub open spec fn place_in(data: Seq<u8>, i: int) -> Option<Found> {
    let s = sections_of(data);
    let at = HEADER + i * RECORD;
    let region = spec_u16_from_le_bytes(data.subrange(at + 10, at + 12)) as int;
    let name_at = word_at(data, at + 12);
    let name = text_in(data, s.regions_end, s.names_end, name_at, name_at + data[at + 16]);
    let cc = data.subrange(at + 8, at + 10);
    match (name, region_in(data, region)) {
        (Some(name), Some(region)) => Some(
            Found {
                name,
                region,
                cc: if valid_utf8(cc) {
                    decode_utf8(cc)
                } else {
                    seq![]
                },
            },
        ),
        _ => None,
    }
}

pub struct Dataset {
    data: Vec<u8>,
    count: usize,
    records_end: usize,
    offsets_end: usize,
    regions_end: usize,
}

impl View for Dataset {
    type V = Seq<u8>;

    closed spec fn view(&self) -> Seq<u8> {
        self.data@
    }
}

impl Dataset {
    #[verifier::type_invariant]
    closed spec fn valid(self) -> bool {
        let s = sections_of(self.data@);
        &&& is_dataset(self.data@)
        &&& self.data@.len() <= usize::MAX
        &&& self.count == s.count
        &&& self.records_end == s.records_end
        &&& self.offsets_end == s.offsets_end
        &&& self.regions_end == s.regions_end
    }

    pub fn load(data: Vec<u8>) -> (r: Option<Dataset>)
        ensures
            match r {
                Some(d) => is_dataset(data@) && d@ == data@,
                None => !is_dataset(data@),
            },
    {
        let len = data.len();
        if len < HEADER {
            return None;
        }
        let magic = slice_subrange(&data, 0, 4);
        assert(magic@ =~= data@.take(4));
        if magic[0] != 0x50 || magic[1] != 0x47 || magic[2] != 0x43 || magic[3] != 0x31 {
            proof {
                let m = seq![0x50u8, 0x47, 0x43, 0x31];
                assert(m[0] == 0x50 && m[1] == 0x47 && m[2] == 0x43 && m[3] == 0x31);
            }
            return None;
        }
        assert(data@.take(4) =~= seq![0x50u8, 0x47, 0x43, 0x31]);
        let count = word(&data, 4) as u64;
        let regions = word(&data, 8) as u64;
        let names_len = word(&data, 12) as u64;
        let regions_len = word(&data, 16) as u64;
        assert(count * 17 <= 0xffff_ffff * 17);
        let records_end: u64 = 20 + count * 17;
        let offsets_end: u64 = records_end + (regions + 1) * 4;
        let regions_end: u64 = offsets_end + regions_len;
        let names_end: u64 = regions_end + names_len;
        if names_end != len as u64 {
            return None;
        }
        let regions_text = slice_subrange(&data, offsets_end as usize, regions_end as usize);
        let names_text = slice_subrange(&data, regions_end as usize, names_end as usize);
        if utf8_text(regions_text).is_none() || utf8_text(names_text).is_none() {
            return None;
        }
        Some(
            Dataset {
                count: count as usize,
                records_end: records_end as usize,
                offsets_end: offsets_end as usize,
                regions_end: regions_end as usize,
                data,
            },
        )
    }

    /// How many places there are.
    pub fn count(&self) -> (n: usize)
        ensures
            n == sections_of(self@).count,
    {
        proof {
            use_type_invariant(self);
        }
        self.count
    }

    /// The bits of the latitude and the longitude of a place, 32-bit
    /// floating-point degrees.
    pub fn coords(&self, i: usize) -> (r: (u32, u32))
        requires
            i < sections_of(self@).count,
        ensures
            r.0 == word_at(self@, HEADER + i * RECORD),
            r.1 == word_at(self@, HEADER + i * RECORD + 4),
    {
        proof {
            use_type_invariant(self);
            lemma_record(self.data@, i as int);
        }
        let at: usize = HEADER + i * RECORD;
        (word(&self.data, at), word(&self.data, at + 4))
    }

    /// The place of a record, where the record points at text.
    pub fn place(&self, i: usize) -> (r: Option<Place>)
        requires
            i < sections_of(self@).count,
        ensures
            match r {
                Some(p) => place_in(self@, i as int) == Some(p@),
                None => place_in(self@, i as int) is None,
            },
    {
        proof {
            use_type_invariant(self);
            lemma_record(self.data@, i as int);
        }
        let at: usize = HEADER + i * RECORD;
        let region = u16_from_le_bytes(slice_subrange(&self.data, at + 10, at + 12)) as usize;
        let name_at = word(&self.data, at + 12) as u64;
        let name_len = self.data[at + 16] as u64;
        let cc = match utf8_text(slice_subrange(&self.data, at + 8, at + 10)) {
            Some(t) => t,
            None => String::new(),
        };
        let name = self.text(self.regions_end, self.data.len(), name_at, name_at + name_len);
        let region = self.region(region);
        match (name, region) {
            (Some(name), Some(region)) => {
                let p = Place { name, region, cc };
                Some(p)
            },
            _ => None,
        }
    }

    fn text(&self, from: usize, to: usize, a: u64, b: u64) -> (r: Option<String>)
        requires
            from <= to <= self@.len(),
        ensures
            match r {
                Some(t) => text_in(self@, from as int, to as int, a as int, b as int) == Some(t@),
                None => text_in(self@, from as int, to as int, a as int, b as int) is None,
            },
    {
        if a > b || b > (to - from) as u64 {
            return None;
        }
        utf8_text(slice_subrange(&self.data, from + a as usize, from + b as usize))
    }

    fn region(&self, i: usize) -> (r: Option<String>)
        requires
            i <= u16::MAX,
        ensures
            match r {
                Some(t) => region_in(self@, i as int) == Some(t@),
                None => region_in(self@, i as int) is None,
            },
    {
        proof {
            use_type_invariant(self);
        }
        if i * 4 + 8 > self.offsets_end - self.records_end {
            return None;
        }
        let at: usize = self.records_end + i * 4;
        let a = word(&self.data, at) as u64;
        let b = word(&self.data, at + 4) as u64;
        self.text(self.offsets_end, self.regions_end, a, b)
    }
}

fn word(data: &Vec<u8>, at: usize) -> (w: u32)
    requires
        at + 4 <= data@.len(),
        data@.len() <= usize::MAX,
    ensures
        w == word_at(data@, at as int),
{
    u32_from_le_bytes(slice_subrange(data, at, at + 4))
}

proof fn lemma_record(data: Seq<u8>, i: int)
    requires
        is_dataset(data),
        0 <= i < sections_of(data).count,
    ensures
        HEADER + i * RECORD + RECORD <= sections_of(data).records_end,
        sections_of(data).records_end <= sections_of(data).offsets_end <= sections_of(
            data,
        ).regions_end <= sections_of(data).names_end,
{
}

} // verus!
