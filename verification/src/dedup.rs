//! Duplicate detection.
//!
//! **Duplicate = identical bytes.** It is the only definition implementable
//! without false positives.
//!
//! The key is size alone, never `filename + size`: the most common real
//! duplicate is the same bytes under a different name (`IMG_1234 (1).jpg`,
//! re-imported cards).

use crate::tables::TextMap;
use std::collections::HashMap;
use vstd::bytes::{spec_u64_to_le_bytes, u64_to_le_bytes};
use vstd::prelude::*;

verus! {

/// One seek at each end kills nearly all false pairs before a full read.
pub const EDGE_BYTES: u64 = 65_536;

pub type Digest = [u8; 32];

/// The state of an incremental BLAKE3 hash.
#[verifier::external_type_specification]
#[verifier::external_body]
pub struct ExHasher(blake3::Hasher);

/// The bytes that a hasher has been fed.
pub uninterp spec fn hasher_bytes(h: blake3::Hasher) -> Seq<u8>;

/// The BLAKE3 hash of some bytes.
pub uninterp spec fn blake3_digest(bytes: Seq<u8>) -> Seq<u8>;

/// `blake3::Hasher::new` starts on no bytes.
#[verifier::external_body]
fn new_hasher() -> (h: blake3::Hasher)
    ensures
        hasher_bytes(h) == Seq::<u8>::empty(),
{
    blake3::Hasher::new()
}

/// `blake3::Hasher::update` adds bytes behind those that came before.
#[verifier::external_body]
fn feed_hasher(h: &mut blake3::Hasher, bytes: &[u8])
    ensures
        hasher_bytes(*final(h)) == hasher_bytes(*old(h)) + bytes@,
{
    h.update(bytes);
}

/// `blake3::Hasher::finalize` gives the hash of the bytes that were fed, a
/// function of those bytes alone.
#[verifier::external_body]
fn finish_hasher(h: &blake3::Hasher) -> (d: Digest)
    ensures
        d@ == blake3_digest(hasher_bytes(*h)),
{
    *h.finalize().as_bytes()
}

/// How many bytes of a file's start are sampled.
pub open spec fn head_len(size: nat) -> nat {
    if size <= EDGE_BYTES {
        size
    } else {
        EDGE_BYTES as nat
    }
}

/// How many bytes of a file's end are sampled.
pub open spec fn tail_len(size: nat) -> nat {
    if size > 2 * EDGE_BYTES {
        EDGE_BYTES as nat
    } else {
        0
    }
}

/// How many bytes to read at the start and at the end of a file.
pub fn edges(size: u64) -> (r: (u64, u64))
    ensures
        r.0 == head_len(size as nat),
        r.1 == tail_len(size as nat),
{
    let head = if size <= EDGE_BYTES {
        size
    } else {
        EDGE_BYTES
    };
    let tail = if size > 2 * EDGE_BYTES {
        EDGE_BYTES
    } else {
        0
    };
    (head, tail)
}

/// The bytes that are hashed of a sampled file: its size, its start and its end.
pub open spec fn edge_bytes(size: u64, head: Seq<u8>, tail: Seq<u8>) -> Seq<u8> {
    spec_u64_to_le_bytes(size) + head + tail
}

/// The bytes that are hashed of a sampled file with the given content.
pub open spec fn sampled(content: Seq<u8>) -> Seq<u8> {
    let n = content.len();
    edge_bytes(n as u64, content.take(head_len(n) as int), content.skip(n - tail_len(n)))
}

/// The sampled hash of a file with the given content.
pub open spec fn content_edge(content: Seq<u8>) -> Seq<u8> {
    blake3_digest(sampled(content))
}

/// BLAKE3 over the first and last 64 KB. There is no adversary here, and
/// BLAKE3 is several times faster than SHA-256 and internally parallel.
///
/// `head` and `tail` are the bytes that `edges` asks for.
pub fn partial_hash(size: u64, head: &[u8], tail: &[u8]) -> (d: Digest)
    ensures
        d@ == blake3_digest(edge_bytes(size, head@, tail@)),
{
    let mut hasher = new_hasher();
    feed_hasher(&mut hasher, &u64_to_le_bytes(size));
    feed_hasher(&mut hasher, head);
    feed_hasher(&mut hasher, tail);
    assert(hasher_bytes(hasher) =~= edge_bytes(size, head@, tail@));
    finish_hasher(&hasher)
}

/// The hash of a whole file, fed as it is read.
pub struct FullHash {
    hasher: blake3::Hasher,
}

impl View for FullHash {
    type V = Seq<u8>;

    closed spec fn view(&self) -> Seq<u8> {
        hasher_bytes(self.hasher)
    }
}

impl FullHash {
    pub fn new() -> (r: FullHash)
        ensures
            r@ == Seq::<u8>::empty(),
    {
        FullHash { hasher: new_hasher() }
    }

    pub fn update(&mut self, bytes: &[u8])
        ensures
            final(self)@ == old(self)@ + bytes@,
    {
        feed_hasher(&mut self.hasher, bytes);
    }

    pub fn finish(&self) -> (d: Digest)
        ensures
            d@ == blake3_digest(self@),
    {
        finish_hasher(&self.hasher)
    }
}

/// The hash of a file that is at hand as a whole.
pub fn full_hash(content: &[u8]) -> (d: Digest)
    ensures
        d@ == blake3_digest(content@),
{
    let mut h = FullHash::new();
    h.update(content);
    assert(h@ =~= content@);
    h.finish()
}

/// What the files hold: the sampled hash of a path that is taken to be of some
/// size, and the hash of the whole; none for a file that cannot be read.
pub struct Contents {
    pub edge: spec_fn(Seq<char>, nat) -> Option<Seq<u8>>,
    pub full: spec_fn(Seq<char>) -> Option<Seq<u8>>,
}

/// Whether two files of one size hold identical bytes, as their hashes show. An
/// unreadable file is identical to none.
pub open spec fn identical(c: Contents, a: Seq<char>, b: Seq<char>, size: nat) -> bool {
    &&& (c.edge)(a, size) is Some
    &&& (c.edge)(a, size) == (c.edge)(b, size)
    &&& settled_by_edges(c, a, b, size)
}

/// The rest of `identical` for files whose sampled hashes agree.
pub open spec fn settled_by_edges(c: Contents, a: Seq<char>, b: Seq<char>, size: nat) -> bool {
    size <= EDGE_BYTES || (c.full)(a) is Some && (c.full)(a) == (c.full)(b)
}

/// A question about a file's content.
#[derive(Debug)]
pub enum HashQuery {
    Partial { path: String, size: u64 },
    Full { path: String },
}

pub open spec fn digest_view(d: Option<Digest>) -> Option<Seq<u8>> {
    match d {
        Some(d) => Some(d@),
        None => None,
    }
}

impl HashQuery {
    /// Whether the question is about this file, taken to be of this size.
    pub open spec fn is_about(self, file: Seq<char>, len: u64) -> bool {
        match self {
            HashQuery::Partial { path, size } => path@ == file && size == len,
            HashQuery::Full { path } => path@ == file,
        }
    }

    /// Whether both questions are about the edges of one file, taken to be of two
    /// sizes; the answer to the one takes the place of the answer to the other.
    pub open spec fn is_replaced_by(self, q: HashQuery) -> bool {
        match (self, q) {
            (HashQuery::Partial { path, size }, HashQuery::Partial { path: p, size: s }) => path@
                == p@ && size != s,
            _ => false,
        }
    }

    /// What the answer is.
    pub open spec fn truth(self, c: Contents) -> Option<Seq<u8>> {
        match self {
            HashQuery::Partial { path, size } => (c.edge)(path@, size as nat),
            HashQuery::Full { path } => (c.full)(path@),
        }
    }
}

/// How many files either map memoizes before it is thrown away and rebuilt.
/// Unbounded, a million-file run holds a path and a digest per file; a cache
/// miss only costs a re-read, so the ceiling is the cheaper end of the trade.
pub const CACHE_LIMIT: usize = 50_000;

/// Digests by path, at most `CACHE_LIMIT` of them.
#[verifier::reject_recursive_types(V)]
pub struct Bounded<V> {
    map: TextMap<V>,
    len: usize,
}

impl<V> View for Bounded<V> {
    type V = Map<Seq<char>, V>;

    closed spec fn view(&self) -> Map<Seq<char>, V> {
        self.map@
    }
}

impl<V> Bounded<V> {
    /// The map is as long as it says, and within the limit.
    pub closed spec fn within_limit(self) -> bool {
        &&& self.map@.dom().finite()
        &&& self.map@.dom().len() == self.len
        &&& self.len <= CACHE_LIMIT
    }

    /// A bounded map never holds more than the limit.
    pub proof fn limit_holds(self)
        requires
            self.within_limit(),
        ensures
            self@.dom().finite(),
            self@.dom().len() <= CACHE_LIMIT,
    {
    }

    pub fn new() -> (r: Bounded<V>)
        ensures
            r@ == Map::<Seq<char>, V>::empty(),
            r.within_limit(),
    {
        Bounded { map: TextMap::new(), len: 0 }
    }

    pub fn get(&self, key: &str) -> (r: Option<&V>)
        ensures
            match r {
                Some(v) => self@.dom().contains(key@) && self@[key@] == *v,
                None => !self@.dom().contains(key@),
            },
    {
        self.map.get(key)
    }

    /// Memoizes a value; a map that is full keeps what it has.
    pub fn remember(&mut self, key: String, value: V)
        requires
            old(self).within_limit(),
        ensures
            final(self).within_limit(),
            final(self)@ == memoized(old(self)@, key@, value),
    {
        if self.len < CACHE_LIMIT {
            let fresh = self.map.insert(key, value);
            if fresh {
                self.len += 1;
            }
        }
    }

    /// Throws a full map away. Reassigning rather than clearing hands the table
    /// itself back to the allocator.
    pub fn start_over(&mut self)
        requires
            old(self).within_limit(),
        ensures
            final(self).within_limit(),
            final(self)@ == relieved(old(self)@),
    {
        if self.len >= CACHE_LIMIT {
            self.map = TextMap::new();
            self.len = 0;
        }
    }
}

/// A bounded map with one more value, where there is room.
pub open spec fn memoized<V>(map: Map<Seq<char>, V>, key: Seq<char>, value: V) -> Map<
    Seq<char>,
    V,
> {
    if map.dom().len() < CACHE_LIMIT {
        map.insert(key, value)
    } else {
        map
    }
}

/// A bounded map, empty once it was full.
pub open spec fn relieved<V>(map: Map<Seq<char>, V>) -> Map<Seq<char>, V> {
    if map.dom().len() < CACHE_LIMIT {
        map
    } else {
        Map::empty()
    }
}

/// Memoized hashes, so a file colliding with several candidates is read once.
///
/// Next to the bounded maps stand the answers to the questions of the moment,
/// which are kept until `settle`. Only then is a full map thrown away: in the
/// middle of a comparison that would make it start over.
pub struct HashCache {
    partial: Bounded<(u64, Digest)>,
    full: Bounded<Digest>,
    recent_partial: TextMap<(u64, Option<Digest>)>,
    recent_full: TextMap<Option<Digest>>,
}

impl HashCache {
    /// Both maps are within their limit.
    pub closed spec fn within_limit(self) -> bool {
        self.partial.within_limit() && self.full.within_limit()
    }

    /// Everything that is remembered is true of the contents.
    pub closed spec fn agrees(self, c: Contents) -> bool {
        &&& forall|p: Seq<char>|
            self.partial@.dom().contains(p) ==> (c.edge)(
                p,
                (#[trigger] self.partial@[p]).0 as nat,
            ) == Some(self.partial@[p].1@)
        &&& forall|p: Seq<char>|
            self.full@.dom().contains(p) ==> (c.full)(p) == Some((#[trigger] self.full@[p])@)
        &&& forall|p: Seq<char>|
            self.recent_partial@.dom().contains(p) ==> (c.edge)(
                p,
                (#[trigger] self.recent_partial@[p]).0 as nat,
            ) == digest_view(self.recent_partial@[p].1)
        &&& forall|p: Seq<char>|
            self.recent_full@.dom().contains(p) ==> (c.full)(p) == digest_view(
                #[trigger] self.recent_full@[p],
            )
    }

    /// Whether the sampled hash of a path is remembered, taken to be of this size.
    pub closed spec fn knows_edge(self, path: Seq<char>, size: u64) -> bool {
        ||| self.recent_partial@.dom().contains(path) && self.recent_partial@[path].0 == size
        ||| self.partial@.dom().contains(path) && self.partial@[path].0 == size
    }

    /// Whether the hash of the whole of a path is remembered.
    pub closed spec fn knows_full(self, path: Seq<char>) -> bool {
        self.recent_full@.dom().contains(path) || self.full@.dom().contains(path)
    }

    /// Whether the answer is remembered.
    pub open spec fn knows(self, q: HashQuery) -> bool {
        match q {
            HashQuery::Partial { path, size } => self.knows_edge(path@, size),
            HashQuery::Full { path } => self.knows_full(path@),
        }
    }

    /// Whether this is the first question about two files that is not answered. The
    /// samples come first, and a question comes only where the answers before it
    /// leave something open.
    pub open spec fn asks_first(self, q: HashQuery, a: Seq<char>, b: Seq<char>, size: u64) -> bool {
        match q {
            HashQuery::Partial { path, size: s } => {
                &&& s == size
                &&& !self.knows_edge(path@, size)
                &&& path@ == a || path@ == b && self.knows_edge(a, size) && (forall|c: Contents|
                    #[trigger] self.agrees(c) ==> (c.edge)(a, size as nat) is Some)
            },
            HashQuery::Full { .. } => {
                &&& self.knows_edge(a, size)
                &&& self.knows_edge(b, size)
                &&& forall|c: Contents| #[trigger]
                    self.agrees(c) ==> (c.edge)(a, size as nat) is Some && (c.edge)(a, size as nat)
                        == (c.edge)(b, size as nat)
                &&& self.asks_after_edges(q, a, b, size)
            },
        }
    }

    /// Whether this is the first question that is not answered about two files whose
    /// samples agree.
    pub open spec fn asks_after_edges(
        self,
        q: HashQuery,
        a: Seq<char>,
        b: Seq<char>,
        size: u64,
    ) -> bool {
        &&& q matches HashQuery::Full { path }
        &&& size > EDGE_BYTES
        &&& !self.knows_full(path@)
        &&& path@ == a || path@ == b && self.knows_full(a) && (forall|c: Contents| #[trigger]
            self.agrees(c) ==> (c.full)(a) is Some)
    }

    /// The answers that outlast `settle`: by path, the size and the sampled hash,
    /// and the hash of the whole.
    pub closed spec fn lasting(self) -> (Map<Seq<char>, (u64, Digest)>, Map<Seq<char>, Digest>) {
        (self.partial@, self.full@)
    }

    /// The answers of the moment; a file that cannot be read has none.
    pub closed spec fn momentary(self) -> (
        Map<Seq<char>, (u64, Option<Digest>)>,
        Map<Seq<char>, Option<Digest>>,
    ) {
        (self.recent_partial@, self.recent_full@)
    }

    /// Whether the answer is remembered for longer than the moment.
    pub open spec fn keeps(self, q: HashQuery) -> bool {
        let (partial, full) = self.lasting();
        match q {
            HashQuery::Partial { path, size } => partial.dom().contains(path@)
                && partial[path@].0 == size,
            HashQuery::Full { path } => full.dom().contains(path@),
        }
    }

    pub fn new() -> (r: HashCache)
        ensures
            r.within_limit(),
            forall|c: Contents| #[trigger] r.agrees(c),
            forall|q: HashQuery| !#[trigger] r.knows(q),
    {
        HashCache {
            partial: Bounded::new(),
            full: Bounded::new(),
            recent_partial: TextMap::new(),
            recent_full: TextMap::new(),
        }
    }

    /// The sampled hash, where it is remembered.
    pub fn partial(&self, path: &str, size: u64) -> (r: Option<Option<Digest>>)
        ensures
            match r {
                Some(d) => self.knows_edge(path@, size) && forall|c: Contents|
                    #![trigger self.agrees(c)]
                    #![trigger (c.edge)(path@, size as nat)]
                    self.agrees(c) ==> (c.edge)(path@, size as nat) == digest_view(d),
                None => !self.knows_edge(path@, size),
            },
    {
        if let Some((s, d)) = self.recent_partial.get(path) {
            if *s == size {
                return Some(*d);
            }
        }
        if let Some((s, d)) = self.partial.get(path) {
            if *s == size {
                return Some(Some(*d));
            }
        }
        None
    }

    /// The hash of the whole, where it is remembered.
    pub fn full(&self, path: &str) -> (r: Option<Option<Digest>>)
        ensures
            match r {
                Some(d) => self.knows_full(path@) && forall|c: Contents|
                    #![trigger self.agrees(c)]
                    #![trigger (c.full)(path@)]
                    self.agrees(c) ==> (c.full)(path@) == digest_view(d),
                None => !self.knows_full(path@),
            },
    {
        if let Some(d) = self.recent_full.get(path) {
            return Some(*d);
        }
        if let Some(d) = self.full.get(path) {
            return Some(Some(*d));
        }
        None
    }

    /// Remembers an answer.
    pub fn remember(&mut self, q: HashQuery, answer: Option<Digest>)
        requires
            old(self).within_limit(),
        ensures
            final(self).within_limit(),
            final(self).knows(q),
            forall|o: HashQuery| #[trigger]
                old(self).knows(o) && !o.is_replaced_by(q) ==> final(self).knows(o),
            match q {
                HashQuery::Partial { path, size } => {
                    &&& final(self).momentary().0 == old(self).momentary().0.insert(
                        path@,
                        (size, answer),
                    )
                    &&& final(self).momentary().1 == old(self).momentary().1
                    &&& final(self).lasting().0 == (match answer {
                        Some(d) => memoized(old(self).lasting().0, path@, (size, d)),
                        None => old(self).lasting().0,
                    })
                    &&& final(self).lasting().1 == old(self).lasting().1
                },
                HashQuery::Full { path } => {
                    &&& final(self).momentary().0 == old(self).momentary().0
                    &&& final(self).momentary().1 == old(self).momentary().1.insert(path@, answer)
                    &&& final(self).lasting().0 == old(self).lasting().0
                    &&& final(self).lasting().1 == (match answer {
                        Some(d) => memoized(old(self).lasting().1, path@, d),
                        None => old(self).lasting().1,
                    })
                },
            },
            forall|c: Contents|
                old(self).agrees(c) && q.truth(c) == digest_view(answer)
                    ==> #[trigger] final(self).agrees(c),
    {
        match q {
            HashQuery::Partial { path, size } => {
                if let Some(d) = answer {
                    self.partial.remember(path.clone(), (size, d));
                }
                self.recent_partial.insert(path, (size, answer));
            },
            HashQuery::Full { path } => {
                if let Some(d) = answer {
                    self.full.remember(path.clone(), d);
                }
                self.recent_full.insert(path, answer);
            },
        }
    }

    /// Lets go of the answers of the moment.
    pub fn settle(&mut self)
        requires
            old(self).within_limit(),
        ensures
            final(self).within_limit(),
            final(self).lasting().0 == relieved(old(self).lasting().0),
            final(self).lasting().1 == relieved(old(self).lasting().1),
            final(self).momentary().0 == Map::<Seq<char>, (u64, Option<Digest>)>::empty(),
            final(self).momentary().1 == Map::<Seq<char>, Option<Digest>>::empty(),
            forall|q: HashQuery| #[trigger] final(self).knows(q) <==> final(self).keeps(q),
            forall|c: Contents| old(self).agrees(c) ==> #[trigger] final(self).agrees(c),
    {
        self.recent_partial = TextMap::new();
        self.recent_full = TextMap::new();
        self.partial.start_over();
        self.full.start_over();
    }

    /// Identical bytes? size -> edge hash -> full hash. An error is the first
    /// question whose answer is not remembered.
    pub fn same_bytes(&self, a: &str, b: &str, size: u64) -> (r: Result<bool, HashQuery>)
        ensures
            match r {
                Ok(v) => forall|c: Contents| #[trigger]
                    self.agrees(c) ==> v == identical(c, a@, b@, size as nat),
                Err(q) => self.asks_first(q, a@, b@, size),
            },
    {
        let x = match self.partial(a, size) {
            Some(d) => d,
            None => {
                return Err(HashQuery::Partial { path: a.to_owned(), size });
            },
        };
        let x = match x {
            Some(d) => d,
            None => {
                return Ok(false);
            },
        };
        let y = match self.partial(b, size) {
            Some(d) => d,
            None => {
                return Err(HashQuery::Partial { path: b.to_owned(), size });
            },
        };
        match y {
            Some(y) if same_digest(&x, &y) => self.same_bytes_after_partial(a, b, size),
            _ => Ok(false),
        }
    }

    /// The tail of `same_bytes`, for callers that already know the edge hashes
    /// agree.
    pub fn same_bytes_after_partial(&self, a: &str, b: &str, size: u64) -> (r: Result<
        bool,
        HashQuery,
    >)
        ensures
            match r {
                Ok(v) => forall|c: Contents| #[trigger]
                    self.agrees(c) ==> v == settled_by_edges(c, a@, b@, size as nat),
                Err(q) => self.asks_after_edges(q, a@, b@, size),
            },
    {
        // Files at or below the sampled window are fully covered already.
        if size <= EDGE_BYTES {
            return Ok(true);
        }
        let x = match self.full(a) {
            Some(d) => d,
            None => {
                return Err(HashQuery::Full { path: a.to_owned() });
            },
        };
        let x = match x {
            Some(d) => d,
            None => {
                return Ok(false);
            },
        };
        let y = match self.full(b) {
            Some(d) => d,
            None => {
                return Err(HashQuery::Full { path: b.to_owned() });
            },
        };
        match y {
            Some(y) => Ok(same_digest(&x, &y)),
            None => Ok(false),
        }
    }
}

/// Whether two digests are equal.
pub fn same_digest(a: &Digest, b: &Digest) -> (r: bool)
    ensures
        r == (a@ == b@),
{
    let mut i: usize = 0;
    while i < 32
        invariant
            i <= 32,
            forall|k: int| 0 <= k < i ==> a@[k] == b@[k],
        decreases 32 - i,
    {
        if a[i] != b[i] {
            return false;
        }
        i += 1;
    }
    assert(a@ =~= b@);
    true
}

/// The contents that files of the given bytes have, as far as they are of the
/// size that they are taken to be of.
pub open spec fn contents_of(files: spec_fn(Seq<char>) -> Option<Seq<u8>>) -> Contents {
    Contents {
        edge: |p: Seq<char>, size: nat|
            match files(p) {
                Some(bytes) => if bytes.len() == size {
                    Some(content_edge(bytes))
                } else {
                    None
                },
                None => None,
            },
        full: |p: Seq<char>|
            match files(p) {
                Some(bytes) => Some(blake3_digest(bytes)),
                None => None,
            },
    }
}

/// Readable files of the same bytes are found to be identical.
pub proof fn same_bytes_are_identical(
    files: spec_fn(Seq<char>) -> Option<Seq<u8>>,
    a: Seq<char>,
    b: Seq<char>,
    size: nat,
)
    requires
        files(a) is Some,
        files(a) == files(b),
        files(a).unwrap().len() == size,
    ensures
        identical(contents_of(files), a, b, size),
{
}

/// Whether BLAKE3 gives two different sequences of bytes one hash.
pub open spec fn collide(x: Seq<u8>, y: Seq<u8>) -> bool {
    x != y && blake3_digest(x) == blake3_digest(y)
}

/// Files that are found to be identical hold the same bytes, unless BLAKE3
/// collides on what was hashed of them.
pub proof fn identical_files_have_the_same_bytes(
    files: spec_fn(Seq<char>) -> Option<Seq<u8>>,
    a: Seq<char>,
    b: Seq<char>,
    size: nat,
)
    requires
        size <= u64::MAX,
        identical(contents_of(files), a, b, size),
        files(a) matches Some(x) && files(b) matches Some(y) ==> !collide(x, y) && !collide(
            sampled(x),
            sampled(y),
        ),
    ensures
        files(a) is Some,
        files(a) == files(b),
{
    let x = files(a).unwrap();
    let y = files(b).unwrap();
    if size <= EDGE_BYTES {
        let p = spec_u64_to_le_bytes(size as u64);
        let hx = x.take(head_len(size) as int);
        let hy = y.take(head_len(size) as int);
        let tx = x.skip(size - tail_len(size));
        let ty = y.skip(size - tail_len(size));
        assert(content_edge(x) == content_edge(y));
        assert(p + hx + tx == p + hy + ty);
        assert(hx =~= x);
        assert(hy =~= y);
        assert forall|i: int| 0 <= i < size implies x[i] == y[i] by {
            assert((p + hx + tx)[p.len() + i] == x[i]);
            assert((p + hy + ty)[p.len() + i] == y[i]);
        }
        assert(x =~= y);
    } else {
        assert(blake3_digest(x) == blake3_digest(y));
    }
}

/// The paths of the given size, in the order in which they came.
pub open spec fn of_size(log: Seq<(u64, Seq<char>)>, size: u64) -> Seq<Seq<char>>
    decreases log.len(),
{
    if log.len() == 0 {
        seq![]
    } else if log.last().0 == size {
        of_size(log.drop_last(), size).push(log.last().1)
    } else {
        of_size(log.drop_last(), size)
    }
}

pub open spec fn texts(v: Seq<String>) -> Seq<Seq<char>> {
    v.map_values(|s: String| s@)
}

/// `size -> paths` index of the destination subtree.
///
/// Without it, every rerun produces `IMG_1234_1.jpg`.
pub struct SizeIndex {
    by_size: HashMap<u64, Vec<String>>,
    none: Vec<String>,
    count: usize,
    log: Ghost<Seq<(u64, Seq<char>)>>,
}

impl View for SizeIndex {
    type V = Seq<(u64, Seq<char>)>;

    closed spec fn view(&self) -> Seq<(u64, Seq<char>)> {
        self.log@
    }
}

impl SizeIndex {
    /// The paths are filed by their size.
    pub closed spec fn wf(self) -> bool {
        &&& self.count == self.log@.len()
        &&& self.none@.len() == 0
        &&& forall|size: u64|
            #![trigger of_size(self.log@, size)]
            of_size(self.log@, size) == (if self.by_size@.dom().contains(size) {
                texts(self.by_size@[size]@)
            } else {
                seq![]
            })
    }

    pub fn new() -> (r: SizeIndex)
        ensures
            r.wf(),
            r@ == Seq::<(u64, Seq<char>)>::empty(),
    {
        SizeIndex {
            by_size: HashMap::new(),
            none: Vec::new(),
            count: 0,
            log: Ghost(Seq::empty()),
        }
    }

    pub fn insert(&mut self, size: u64, path: String)
        requires
            old(self).wf(),
            old(self)@.len() < usize::MAX,
        ensures
            final(self).wf(),
            final(self)@ == old(self)@.push((size, path@)),
    {
        let ghost log = self.log@;
        let ghost p = path@;
        let ghost files = self.by_size@;
        let mut paths = match self.by_size.remove(&size) {
            Some(v) => v,
            None => Vec::new(),
        };
        let ghost before = paths@;
        paths.push(path);
        assert(texts(paths@) =~= texts(before).push(p));
        self.by_size.insert(size, paths);
        self.count += 1;
        self.log = Ghost(log.push((size, p)));
        proof {
            assert(log.push((size, p)).drop_last() =~= log);
            assert forall|other: u64|
                #![trigger of_size(self.log@, other)]
                of_size(self.log@, other) == (if self.by_size@.dom().contains(other) {
                    texts(self.by_size@[other]@)
                } else {
                    seq![]
                }) by {
                assert(of_size(log, other) == (if files.dom().contains(other) {
                    texts(files[other]@)
                } else {
                    seq![]
                }));
                if other == size && !files.dom().contains(size) {
                    assert(texts(before) =~= Seq::<Seq<char>>::empty());
                }
            }
        }
    }

    /// The paths of the given size.
    pub fn candidates(&self, size: u64) -> (r: &[String])
        requires
            self.wf(),
        ensures
            texts(r@) == of_size(self@, size),
    {
        assert(of_size(self.log@, size).len() >= 0);
        match self.by_size.get(&size) {
            Some(v) => v.as_slice(),
            None => {
                assert(texts(self.none@) =~= Seq::<Seq<char>>::empty());
                self.none.as_slice()
            },
        }
    }

    pub fn len(&self) -> (n: usize)
        requires
            self.wf(),
        ensures
            n == self@.len(),
    {
        self.count
    }

    pub fn is_empty(&self) -> (b: bool)
        requires
            self.wf(),
        ensures
            b == (self@.len() == 0),
    {
        self.count == 0
    }
}

} // verus!
