use photorg::dedup::{
    edges, full_hash, partial_hash, same_digest, Digest, FullHash, HashCache, HashQuery, SizeIndex,
    Bounded, CACHE_LIMIT, EDGE_BYTES,
};
use std::collections::HashMap;

/// A disk in memory that answers what the cache wants to know.
fn digest(files: &HashMap<&str, Vec<u8>>, q: &HashQuery) -> Option<Digest> {
    match q {
        HashQuery::Partial { path, size } => {
            let content = files.get(path.as_str())?;
            let (head, tail) = edges(*size);
            let head = &content[..content.len().min(head as usize)];
            let tail = &content[content.len() - (tail as usize)..];
            Some(partial_hash(*size, head, tail))
        }
        HashQuery::Full { path } => files.get(path.as_str()).map(|c| full_hash(c)),
    }
}

fn same_bytes(cache: &mut HashCache, files: &HashMap<&str, Vec<u8>>, a: &str, b: &str, size: u64) -> bool {
    loop {
        match cache.same_bytes(a, b, size) {
            Ok(same) => return same,
            Err(q) => {
                let answer = digest(files, &q);
                cache.remember(q, answer);
            }
        }
    }
}

#[test]
fn identical_bytes_under_different_names_match() {
    let files = HashMap::from([
        ("IMG_1234.jpg", b"hello world".to_vec()),
        ("IMG_1234 (1).jpg", b"hello world".to_vec()),
    ]);
    let mut cache = HashCache::new();
    assert!(same_bytes(&mut cache, &files, "IMG_1234.jpg", "IMG_1234 (1).jpg", 11));
}

#[test]
fn different_bytes_do_not_match() {
    let files = HashMap::from([
        ("a.jpg", b"hello world".to_vec()),
        ("b.jpg", b"hello w0rld".to_vec()),
    ]);
    let mut cache = HashCache::new();
    assert!(!same_bytes(&mut cache, &files, "a.jpg", "b.jpg", 11));
}

#[test]
fn large_files_fall_through_to_a_full_hash() {
    let mut a_bytes = vec![7u8; 200 * 1024];
    let mut b_bytes = a_bytes.clone();
    // Differ only in the middle, which the edge hash cannot see.
    a_bytes[100 * 1024] = 1;
    b_bytes[100 * 1024] = 2;
    let size = a_bytes.len() as u64;
    let files = HashMap::from([("a.jpg", a_bytes), ("b.jpg", b_bytes)]);
    let q = |path: &str| HashQuery::Partial {
        path: path.into(),
        size,
    };
    assert_eq!(digest(&files, &q("a.jpg")), digest(&files, &q("b.jpg")));
    let mut cache = HashCache::new();
    assert!(!same_bytes(&mut cache, &files, "a.jpg", "b.jpg", size));
}

#[test]
fn size_index_finds_candidates() {
    let mut index = SizeIndex::new();
    assert!(index.is_empty());
    index.insert(5, "a.jpg".into());
    index.insert(5, "b.jpg".into());
    index.insert(3, "c.jpg".into());
    assert_eq!(index.candidates(5).len(), 2);
    assert_eq!(index.candidates(5), ["a.jpg", "b.jpg"]);
    assert_eq!(index.candidates(3).len(), 1);
    assert!(index.candidates(99).is_empty());
    assert_eq!(index.len(), 3);
    assert!(!index.is_empty());
}

#[test]
fn the_full_hash_is_blake3() {
    assert_eq!(full_hash(b"abc"), *blake3::hash(b"abc").as_bytes());
    let mut h = FullHash::new();
    h.update(b"a");
    h.update(b"bc");
    assert!(same_digest(&h.finish(), &full_hash(b"abc")));
    assert!(!same_digest(&h.finish(), &full_hash(b"abd")));
}

#[test]
fn the_partial_hash_covers_the_size_and_both_edges() {
    let mut want = blake3::Hasher::new();
    want.update(&5u64.to_le_bytes());
    want.update(b"12345");
    assert_eq!(partial_hash(5, b"12345", b""), *want.finalize().as_bytes());
    assert_eq!(edges(5), (5, 0));
    assert_eq!(edges(2 * EDGE_BYTES), (EDGE_BYTES, 0));
    assert_eq!(edges(2 * EDGE_BYTES + 1), (EDGE_BYTES, EDGE_BYTES));
}

#[test]
fn a_file_that_cannot_be_read_matches_nothing() {
    let files = HashMap::from([("a.jpg", b"hello".to_vec())]);
    let mut cache = HashCache::new();
    assert!(!same_bytes(&mut cache, &files, "a.jpg", "gone.jpg", 5));
}

#[test]
fn samples_are_asked_for_before_whole_files() {
    let size = EDGE_BYTES + 1;
    let mut cache = HashCache::new();
    let partial = |p: &str| HashQuery::Partial {
        path: p.into(),
        size,
    };
    let ask = |cache: &HashCache| match cache.same_bytes("a.jpg", "b.jpg", size) {
        Err(HashQuery::Partial { path, .. }) => format!("sample of {path}"),
        Err(HashQuery::Full { path }) => format!("whole of {path}"),
        Ok(same) => format!("{same}"),
    };
    assert_eq!(ask(&cache), "sample of a.jpg");
    cache.remember(partial("a.jpg"), Some(full_hash(b"x")));
    assert_eq!(ask(&cache), "sample of b.jpg");
    cache.remember(partial("b.jpg"), Some(full_hash(b"y")));
    assert_eq!(ask(&cache), "false");
    cache.remember(partial("b.jpg"), Some(full_hash(b"x")));
    assert_eq!(ask(&cache), "whole of a.jpg");
    cache.remember(HashQuery::Full { path: "a.jpg".into() }, Some(full_hash(b"x")));
    assert_eq!(ask(&cache), "whole of b.jpg");
    cache.remember(HashQuery::Full { path: "b.jpg".into() }, Some(full_hash(b"x")));
    assert_eq!(ask(&cache), "true");
}

#[test]
fn hashes_are_remembered() {
    let mut cache = HashCache::new();
    assert!(cache.full("a.jpg").is_none());
    let d = full_hash(b"x");
    cache.remember(HashQuery::Full { path: "a.jpg".into() }, Some(d));
    assert_eq!(cache.full("a.jpg"), Some(Some(d)));
    cache.remember(
        HashQuery::Partial {
            path: "a.jpg".into(),
            size: 1,
        },
        None,
    );
    assert_eq!(cache.partial("a.jpg", 1), Some(None));
    assert_eq!(cache.partial("a.jpg", 2), None);
}

#[test]
fn a_bounded_map_starts_over_when_it_is_full() {
    let mut b: Bounded<usize> = Bounded::new();
    for i in 0..CACHE_LIMIT {
        b.remember(format!("k{i}"), i);
    }
    b.remember("more".into(), 7);
    assert_eq!(b.get("k0"), Some(&0));
    assert_eq!(b.get("more"), None);
    b.start_over();
    assert_eq!(b.get("k0"), None);
    b.remember("more".into(), 7);
    b.start_over();
    assert_eq!(b.get("more"), Some(&7));
}

#[test]
fn one_answer_does_not_displace_another() {
    let mut cache = HashCache::new();
    let partial = |path: &str, size: u64| HashQuery::Partial {
        path: path.into(),
        size,
    };
    cache.remember(partial("a", 9), Some([1; 32]));
    cache.remember(partial("b", 9), None);
    cache.remember(HashQuery::Full { path: "a".into() }, Some([2; 32]));
    assert_eq!(cache.partial("a", 9), Some(Some([1; 32])));
    assert_eq!(cache.partial("b", 9), Some(None));
    assert_eq!(cache.full("a"), Some(Some([2; 32])));
    cache.settle();
    assert_eq!(cache.partial("a", 9), Some(Some([1; 32])));
    assert_eq!(cache.partial("b", 9), None);
}
