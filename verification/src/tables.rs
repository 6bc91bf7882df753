//! A map keyed by text.

use std::collections::HashMap;
use vstd::prelude::*;

use crate::text::same_text;

verus! {

/// The number under which a text is filed.
pub open spec fn text_hash(s: Seq<char>) -> u64
    decreases s.len(),
{
    if s.len() == 0 {
        0xcbf2_9ce4_8422_2325
    } else {
        vstd::wrapping::u64_specs::wrapping_mul(
            text_hash(s.drop_last()) ^ (s.last() as u64),
            0x100_0000_01b3,
        )
    }
}

fn hash_text(s: &str) -> (h: u64)
    ensures
        h == text_hash(s@),
{
    let mut h: u64 = 0xcbf2_9ce4_8422_2325;
    for c in it: s.chars()
        invariant
            it.seq() == s@,
            h == text_hash(s@.take(it.index() as int)),
    {
        assert(s@.take(it.index() + 1).drop_last() =~= s@.take(it.index() as int));
        h = (h ^ (c as u64)).wrapping_mul(0x100_0000_01b3);
    }
    assert(s@.take(s@.len() as int) =~= s@);
    h
}

/// Where a key stands in a bucket, or its length.
pub open spec fn place_in<V>(bucket: Seq<(String, V)>, key: Seq<char>) -> int
    decreases bucket.len(),
{
    if bucket.len() == 0 {
        0
    } else if place_in(bucket.drop_last(), key) < bucket.len() - 1 {
        place_in(bucket.drop_last(), key)
    } else if bucket.last().0@ == key {
        bucket.len() - 1
    } else {
        bucket.len() as int
    }
}

pub proof fn lemma_place_in<V>(bucket: Seq<(String, V)>, key: Seq<char>)
    ensures
        0 <= place_in(bucket, key) <= bucket.len(),
        place_in(bucket, key) < bucket.len() ==> bucket[place_in(bucket, key)].0@ == key,
        forall|i: int| 0 <= i < place_in(bucket, key) ==> (#[trigger] bucket[i]).0@ != key,
    decreases bucket.len(),
{
    if bucket.len() > 0 {
        lemma_place_in(bucket.drop_last(), key);
        assert forall|i: int| 0 <= i < bucket.len() - 1 implies bucket.drop_last()[i]
            == #[trigger] bucket[i] by {}
    }
}

pub proof fn lemma_place_is<V>(bucket: Seq<(String, V)>, key: Seq<char>, at: int)
    requires
        0 <= at <= bucket.len(),
        at < bucket.len() ==> bucket[at].0@ == key,
        forall|i: int| 0 <= i < at ==> (#[trigger] bucket[i]).0@ != key,
    ensures
        place_in(bucket, key) == at,
{
    lemma_place_in(bucket, key);
}

/// Filing a value under `key` changes what is found under `key` and nothing else.
proof fn lemma_filing<V>(
    before: Seq<(String, V)>,
    after: Seq<(String, V)>,
    key: Seq<char>,
    value: V,
    at: int,
    other: Seq<char>,
)
    requires
        at == place_in(before, key),
        after.len() == before.len() + (if at == before.len() {
            1int
        } else {
            0int
        }),
        0 <= at < after.len(),
        after[at].0@ == key,
        after[at].1 == value,
        forall|i: int| 0 <= i < before.len() && i != at ==> #[trigger] after[i] == before[i],
    ensures
        ({
            let p = place_in(before, other);
            let q = place_in(after, other);
            &&& other == key ==> q == at
            &&& other != key ==> (p < before.len() <==> q < after.len())
            &&& other != key && p < before.len() ==> before[p].1 == after[q].1
        }),
{
    lemma_place_in(before, other);
    lemma_place_in(before, key);
    let p = place_in(before, other);
    if other == key {
        lemma_place_is(after, key, at);
    } else if p < before.len() {
        lemma_place_is(after, other, p);
    } else {
        lemma_place_is(after, other, after.len() as int);
    }
}

/// A map from texts to values, with the texts filed under a number.
#[verifier::reject_recursive_types(V)]
pub struct TextMap<V> {
    buckets: HashMap<u64, Vec<(String, V)>>,
}

impl<V> View for TextMap<V> {
    type V = Map<Seq<char>, V>;

    closed spec fn view(&self) -> Map<Seq<char>, V> {
        filed(self.buckets@)
    }
}

/// The map that buckets stand for.
pub open spec fn filed<V>(buckets: Map<u64, Vec<(String, V)>>) -> Map<Seq<char>, V> {
    Map::new(
        |key: Seq<char>|
            buckets.dom().contains(text_hash(key)) && place_in(buckets[text_hash(key)]@, key)
                < buckets[text_hash(key)]@.len(),
        |key: Seq<char>| buckets[text_hash(key)]@[place_in(buckets[text_hash(key)]@, key)].1,
    )
}

fn find_in<V>(bucket: &Vec<(String, V)>, key: &str) -> (at: usize)
    ensures
        at == place_in(bucket@, key@),
        at <= bucket@.len(),
{
    let mut at: usize = 0;
    while at < bucket.len() && !same_text(bucket[at].0.as_str(), key)
        invariant
            at <= bucket@.len(),
            forall|i: int| 0 <= i < at ==> (#[trigger] bucket@[i]).0@ != key@,
        decreases bucket@.len() - at,
    {
        at += 1;
    }
    proof {
        lemma_place_is(bucket@, key@, at as int);
    }
    at
}

impl<V> TextMap<V> {
    pub fn new() -> (r: TextMap<V>)
        ensures
            r@ == Map::<Seq<char>, V>::empty(),
    {
        let r = TextMap { buckets: HashMap::new() };
        assert(r@ =~= Map::<Seq<char>, V>::empty());
        r
    }

    pub fn get(&self, key: &str) -> (r: Option<&V>)
        ensures
            match r {
                Some(v) => self@.dom().contains(key@) && self@[key@] == *v,
                None => !self@.dom().contains(key@),
            },
    {
        match self.buckets.get(&hash_text(key)) {
            None => None,
            Some(bucket) => {
                let at = find_in(bucket, key);
                if at < bucket.len() {
                    Some(&bucket[at].1)
                } else {
                    None
                }
            },
        }
    }

    pub fn contains(&self, key: &str) -> (b: bool)
        ensures
            b == self@.dom().contains(key@),
    {
        self.get(key).is_some()
    }

    /// Files a value under a text; says whether the text is new.
    pub fn insert(&mut self, key: String, value: V) -> (fresh: bool)
        ensures
            final(self)@ == old(self)@.insert(key@, value),
            fresh == !old(self)@.dom().contains(key@),
    {
        let h = hash_text(key.as_str());
        let ghost k = key@;
        let ghost before = self.buckets@;
        let mut bucket = match self.buckets.remove(&h) {
            Some(b) => b,
            None => Vec::new(),
        };
        let ghost old_bucket = bucket@;
        let at = find_in(&bucket, key.as_str());
        let fresh = at >= bucket.len();
        if fresh {
            bucket.push((key, value));
        } else {
            bucket.set(at, (key, value));
        }
        let ghost new_bucket = bucket@;
        self.buckets.insert(h, bucket);
        proof {
            assert(self.buckets@[h]@ == new_bucket);
            assert(self@ =~= old(self)@.insert(k, value)) by {
                assert forall|other: Seq<char>|
                    #![trigger self@.dom().contains(other)]
                    (self@.dom().contains(other) == old(self)@.insert(k, value).dom().contains(
                        other,
                    )) && (self@.dom().contains(other) ==> self@[other] == old(self)@.insert(
                        k,
                        value,
                    )[other]) by {
                    lemma_filing(old_bucket, new_bucket, k, value, at as int, other);
                    if text_hash(other) == h {
                        if !before.dom().contains(h) {
                            assert(old_bucket.len() == 0);
                            lemma_place_in(old_bucket, other);
                        }
                    } else {
                        assert(self.buckets@.dom().contains(text_hash(other)) == before.dom().contains(
                            text_hash(other),
                        ));
                    }
                }
            }
        }
        fresh
    }
}

} // verus!
