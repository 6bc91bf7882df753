//! Companion-file grouping.
//!
//! Live Photos, RAW+JPEG pairs and sidecars must travel together: treating
//! files in isolation orphans `.XMP` edits and separates `IMG_0001.HEIC` from
//! `IMG_0001.MOV`.

use crate::dates::DateSource;
use crate::formats::FileKind;
use crate::metadata::{key_of, PhotoMetadata};
use crate::paths::{
    filed_before, has_index, in_order, numbered, path_before, path_order_is_total,
    path_order_is_transitive, sorted, sorts_before, Filed,
};
use crate::text::same_text;
use vstd::prelude::*;

verus! {

#[derive(Debug, Clone)]
pub struct CompanionGroup {
    /// Indices into the photo slice, sorted.
    pub members: Vec<usize>,
    /// The member whose date and GPS the whole group inherits.
    pub primary: usize,
}

/// What the companions of the `i`th photo have in common.
pub open spec fn key_at(photos: Seq<PhotoMetadata>, i: int) -> (Seq<char>, Seq<char>) {
    key_of(photos[i].rel_path@)
}

pub open spec fn rank_of(kind: FileKind) -> int {
    match kind {
        FileKind::Image => 0,
        FileKind::Raw => 1,
        FileKind::Video => 2,
        FileKind::Sidecar => 3,
    }
}

/// Whether the group should rather take its date from `a` than from `b`: the one
/// that is earlier in the fallback chain, a real image before a sidecar, and
/// among equals the first by path.
pub open spec fn prefers(a: PhotoMetadata, b: PhotoMetadata) -> bool {
    if a.date_source.place() != b.date_source.place() {
        a.date_source.place() < b.date_source.place()
    } else if rank_of(a.kind) != rank_of(b.kind) {
        rank_of(a.kind) < rank_of(b.kind)
    } else {
        path_before(a.rel_path@, b.rel_path@)
    }
}

/// The best of the first `n` photos that have the key.
pub open spec fn best_of(
    photos: Seq<PhotoMetadata>,
    key: (Seq<char>, Seq<char>),
    n: int,
) -> Option<int>
    decreases n,
{
    if n <= 0 {
        None
    } else {
        match best_of(photos, key, n - 1) {
            None => if key_at(photos, n - 1) == key {
                Some(n - 1)
            } else {
                None
            },
            Some(b) => if key_at(photos, n - 1) == key && prefers(photos[n - 1], photos[b]) {
                Some(n - 1)
            } else {
                Some(b)
            },
        }
    }
}

/// The photo that the companions of the key take their date and place from.
pub open spec fn primary_of(photos: Seq<PhotoMetadata>, key: (Seq<char>, Seq<char>)) -> Option<
    int,
> {
    best_of(photos, key, photos.len() as int)
}

/// The primary is one of the companions, and none of them is preferred to it.
pub proof fn primary_is_best(photos: Seq<PhotoMetadata>, key: (Seq<char>, Seq<char>), n: int)
    requires
        0 <= n <= photos.len(),
    ensures
        match best_of(photos, key, n) {
            Some(b) => 0 <= b < n && key_at(photos, b) == key && forall|j: int|
                0 <= j < n && #[trigger] key_at(photos, j) == key ==> !prefers(
                    photos[j],
                    photos[b],
                ),
            None => forall|j: int| 0 <= j < n ==> #[trigger] key_at(photos, j) != key,
        },
    decreases n,
{
    if n > 0 {
        primary_is_best(photos, key, n - 1);
        if let Some(b) = best_of(photos, key, n) {
            assert forall|j: int|
                0 <= j < n && #[trigger] key_at(photos, j) == key implies !prefers(
                photos[j],
                photos[b],
            ) by {
                path_order_is_total(photos[b].rel_path@, photos[j].rel_path@);
                if let Some(c) = best_of(photos, key, n - 1) {
                    if b == n - 1 && j < n - 1 && prefers(photos[j], photos[b]) {
                        lemma_prefers_transitive(photos[j], photos[b], photos[c]);
                    }
                }
            }
        }
    }
}

proof fn lemma_prefers_transitive(a: PhotoMetadata, b: PhotoMetadata, c: PhotoMetadata)
    requires
        prefers(a, b),
        prefers(b, c),
    ensures
        prefers(a, c),
{
    if path_before(a.rel_path@, b.rel_path@) && path_before(b.rel_path@, c.rel_path@) {
        path_order_is_transitive(a.rel_path@, b.rel_path@, c.rel_path@);
    }
}

/// What makes a group worth moving: a photo that is what its name says, or a
/// video where videos are wanted.
pub open spec fn is_media(p: PhotoMetadata, include_video: bool) -> bool {
    match p.kind {
        FileKind::Image | FileKind::Raw => p.signature_ok,
        FileKind::Video => include_video,
        FileKind::Sidecar => false,
    }
}

/// Whether one of the photos with the key is media.
pub open spec fn carries_media(
    photos: Seq<PhotoMetadata>,
    key: (Seq<char>, Seq<char>),
    include_video: bool,
) -> bool {
    exists|j: int|
        0 <= j < photos.len() && #[trigger] key_at(photos, j) == key && is_media(
            photos[j],
            include_video,
        )
}

pub open spec fn increasing(v: Seq<usize>) -> bool {
    forall|i: int, j: int| 0 <= i < j < v.len() ==> #[trigger] v[i] < #[trigger] v[j]
}

/// The key of a group.
pub open spec fn group_key(photos: Seq<PhotoMetadata>, g: CompanionGroup) -> (
    Seq<char>,
    Seq<char>,
) {
    key_at(photos, g.members@[0] as int)
}

/// A group holds every photo of its key, in order, and knows the best of them.
pub open spec fn is_group(photos: Seq<PhotoMetadata>, g: CompanionGroup) -> bool {
    &&& has_all(photos, g.members@)
    &&& primary_of(photos, group_key(photos, g)) == Some(g.primary as int)
}

/// Every photo with the key of the first one, in order.
pub open spec fn has_all(photos: Seq<PhotoMetadata>, members: Seq<usize>) -> bool {
    &&& members.len() > 0
    &&& increasing(members)
    &&& forall|k: int| 0 <= k < members.len() ==> #[trigger] members[k] < photos.len()
    &&& forall|i: int|
        0 <= i < photos.len() ==> (members.contains(i as usize) <==> #[trigger] key_at(photos, i)
            == key_at(photos, members[0] as int))
}

pub open spec fn key_before(
    a: (Seq<char>, Seq<char>),
    b: (Seq<char>, Seq<char>),
) -> bool {
    if a.0 != b.0 {
        path_before(a.0, b.0)
    } else {
        path_before(a.1, b.1)
    }
}

fn kind_rank(kind: FileKind) -> (r: u8)
    ensures
        r == rank_of(kind),
{
    match kind {
        FileKind::Image => 0,
        FileKind::Raw => 1,
        FileKind::Video => 2,
        FileKind::Sidecar => 3,
    }
}

fn preferred(a: &PhotoMetadata, b: &PhotoMetadata) -> (r: bool)
    ensures
        r == prefers(*a, *b),
{
    let (x, y) = (a.date_source.rank(), b.date_source.rank());
    if x != y {
        return x < y;
    }
    let (x, y) = (kind_rank(a.kind), kind_rank(b.kind));
    if x != y {
        return x < y;
    }
    sorts_before(a.rel_path.as_str(), b.rel_path.as_str())
}

/// The best does not change over photos of other keys.
proof fn lemma_best_skip(photos: Seq<PhotoMetadata>, key: (Seq<char>, Seq<char>), a: int, b: int)
    requires
        0 <= a <= b <= photos.len(),
        forall|i: int| a <= i < b ==> #[trigger] key_at(photos, i) != key,
    ensures
        best_of(photos, key, b) == best_of(photos, key, a),
    decreases b - a,
{
    if a < b {
        assert(key_at(photos, b - 1) != key);
        lemma_best_skip(photos, key, a, b - 1);
    }
}

/// The best-dated member wins: a RAW+JPEG pair takes the date from whichever
/// file still carries real EXIF.
fn pick_primary(photos: &[PhotoMetadata], members: &[usize]) -> (r: usize)
    requires
        has_all(photos@, members@),
    ensures
        primary_of(photos@, key_at(photos@, members@[0] as int)) == Some(r as int),
{
    let ghost key = key_at(photos@, members@[0] as int);
    let count = photos.len();
    let mut best = members[0];
    let mut k: usize = 1;
    proof {
        assert forall|i: int| 0 <= i < members@[0] implies #[trigger] key_at(photos@, i) != key by {
            if key_at(photos@, i) == key {
                assert(members@.contains(i as usize));
            }
        }
        lemma_best_skip(photos@, key, 0, members@[0] as int);
    }
    while k < members.len()
        invariant
            has_all(photos@, members@),
            key == key_at(photos@, members@[0] as int),
            1 <= k <= members@.len(),
            best < photos@.len(),
            best_of(photos@, key, members@[k - 1] + 1) == Some(best as int),
        decreases members@.len() - k,
    {
        let m = members[k];
        proof {
            let a = members@[k - 1] + 1;
            assert(members@[k - 1] < members@[k as int]);
            assert forall|i: int| a <= i < m implies #[trigger] key_at(photos@, i) != key by {
                if key_at(photos@, i) == key {
                    assert(members@.contains(i as usize));
                    let q = choose|q: int| 0 <= q < members@.len() && members@[q] == i as usize;
                    assert(q > k - 1 ==> q >= k);
                }
            }
            lemma_best_skip(photos@, key, a, m as int);
            assert(members@.contains(m));
            assert(key_at(photos@, m as int) == key);
        }
        if preferred(&photos[m], &photos[best]) {
            best = m;
        }
        k += 1;
    }
    proof {
        let a = members@[k - 1] + 1;
        assert(photos@.len() == count);
        assert forall|i: int| a <= i < photos@.len() implies #[trigger] key_at(photos@, i) != key by {
            if key_at(photos@, i) == key {
                assert(members@.contains(i as usize));
                let q = choose|q: int| 0 <= q < members@.len() && members@[q] == i as usize;
                assert(q == k - 1 || members@[q] < members@[k - 1]);
            }
        }
        lemma_best_skip(photos@, key, a, photos@.len() as int);
    }
    best
}

/// Every photo with its key, numbered.
pub open spec fn filing(photos: Seq<PhotoMetadata>, v: Seq<Filed>) -> bool {
    &&& v.len() == photos.len()
    &&& numbered(v)
    &&& forall|k: int|
        0 <= k < v.len() ==> ((#[trigger] v[k]).dir@, v[k].name@) == key_at(photos, k)
}

fn file_keys(photos: &[PhotoMetadata]) -> (v: Vec<Filed>)
    ensures
        filing(photos@, v@),
{
    let mut v: Vec<Filed> = Vec::new();
    let mut i: usize = 0;
    while i < photos.len()
        invariant
            i <= photos@.len(),
            v@.len() == i,
            numbered(v@),
            forall|k: int|
                0 <= k < v@.len() ==> ((#[trigger] v@[k]).dir@, v@[k].name@) == key_at(photos@, k),
        decreases photos@.len() - i,
    {
        let (dir, name) = photos[i].companion_key();
        v.push(Filed { dir, name, index: i });
        i += 1;
    }
    v
}

/// Whether `i` is a member of the `g`th group.
pub open spec fn in_group(groups: Seq<Vec<usize>>, g: int, i: int) -> bool {
    0 <= g < groups.len() && groups[g]@.contains(i as usize)
}

pub open spec fn in_some_group(groups: Seq<Vec<usize>>, i: int) -> bool {
    exists|g: int| #[trigger] in_group(groups, g, i)
}

/// Groups of photos with the same key, keys in order.
spec fn grouped(photos: Seq<PhotoMetadata>, groups: Seq<Vec<usize>>) -> bool {
    &&& forall|g: int| 0 <= g < groups.len() ==> (#[trigger] groups[g])@.len() > 0 && increasing(
        groups[g]@,
    )
    &&& forall|g: int, k: int|
        0 <= g < groups.len() && 0 <= k < groups[g]@.len() ==> #[trigger] groups[g]@[k]
            < photos.len() && key_at(photos, groups[g]@[k] as int) == key_at(
            photos,
            groups[g]@[0] as int,
        )
    &&& forall|g: int, h: int|
        0 <= g < h < groups.len() ==> key_before(
            key_at(photos, (#[trigger] groups[g])@[0] as int),
            key_at(photos, (#[trigger] groups[h])@[0] as int),
        )
}

/// Consecutive photos of one key, taken together.
fn split_by_key(photos: &[PhotoMetadata], files: &Vec<Filed>, Ghost(v): Ghost<Seq<Filed>>) -> (r:
    Vec<Vec<usize>>)
    requires
        filing(photos@, v),
        in_order(v, files@),
    ensures
        grouped(photos@, r@),
        forall|i: int| 0 <= i < photos@.len() ==> #[trigger] in_some_group(r@, i),
{
    let mut groups: Vec<Vec<usize>> = Vec::new();
    let mut open: Vec<usize> = Vec::new();
    let mut p: usize = 0;
    while p < files.len()
        invariant
            filing(photos@, v),
            in_order(v, files@),
            p <= files@.len(),
            grouped(photos@, groups@),
            p > 0 ==> open@.len() > 0 && open@.last() == files@[p - 1].index,
            p == 0 ==> open@.len() == 0 && groups@.len() == 0,
            increasing(open@),
            forall|k: int|
                0 <= k < open@.len() ==> #[trigger] open@[k] < photos@.len() && key_at(
                    photos@,
                    open@[k] as int,
                ) == key_at(photos@, open@[0] as int),
            forall|g: int|
                0 <= g < groups@.len() && open@.len() > 0 ==> key_before(
                    key_at(photos@, (#[trigger] groups@[g])@[0] as int),
                    key_at(photos@, open@[0] as int),
                ),
            forall|q: int|
                0 <= q < p ==> open@.contains((#[trigger] files@[q]).index) || in_some_group(
                    groups@,
                    files@[q].index as int,
                ),
        decreases files@.len() - p,
    {
        let file = &files[p];
        let ghost before = groups@;
        let ghost was_open = open@;
        assert(files@[p as int] == v[file.index as int]);
        let starts = p > 0 && !(same_text(file.dir.as_str(), files[p - 1].dir.as_str())
            && same_text(file.name.as_str(), files[p - 1].name.as_str()));
        if starts {
            groups.push(open);
            open = Vec::new();
        }
        let ghost emptied = open@;
        open.push(file.index);
        proof {
            if p > 0 {
                let last = files@[p - 1];
                assert(filed_before(files@[p - 1], files@[p as int]));
                assert(last == v[last.index as int]);
                assert(key_at(photos@, was_open.last() as int) == (last.dir@, last.name@));
                assert(was_open[was_open.len() - 1] == was_open.last());
                path_order_is_total(last.dir@, file.dir@);
                path_order_is_total(last.name@, file.name@);
            }
            assert forall|q: int| 0 <= q < p + 1 implies open@.contains((#[trigger] files@[q]).index)
                || in_some_group(groups@, files@[q].index as int) by {
                if q == p {
                    assert(open@[open@.len() - 1] == files@[q].index);
                } else if was_open.contains(files@[q].index) {
                    let k = choose|k: int|
                        0 <= k < was_open.len() && was_open[k] == files@[q].index;
                    if starts {
                        assert(groups@[before.len() as int]@ == was_open);
                        assert(in_group(groups@, before.len() as int, files@[q].index as int));
                    } else {
                        assert(open@[k] == files@[q].index);
                    }
                } else {
                    let g = choose|g: int| in_group(before, g, files@[q].index as int);
                    assert(groups@[g] == before[g]);
                    assert(in_group(groups@, g, files@[q].index as int));
                }
            }
            if starts {
                assert forall|g: int| 0 <= g < groups@.len() implies key_before(
                    key_at(photos@, (#[trigger] groups@[g])@[0] as int),
                    key_at(photos@, open@[0] as int),
                ) by {
                    if g < before.len() {
                        assert(groups@[g] == before[g]);
                        lemma_key_before(
                            key_at(photos@, before[g]@[0] as int),
                            key_at(photos@, was_open[0] as int),
                            key_at(photos@, open@[0] as int),
                        );
                    }
                }
            }
        }
        p += 1;
    }
    let ghost before = groups@;
    let ghost was_open = open@;
    if files.len() > 0 {
        groups.push(open);
    }
    proof {
        assert forall|i: int| 0 <= i < photos@.len() implies #[trigger] in_some_group(groups@, i) by {
            assert(has_index(files@, i));
            let q = choose|q: int| 0 <= q < files@.len() && (#[trigger] files@[q]).index == i;
            if was_open.contains(files@[q].index) {
                assert(groups@[before.len() as int]@ == was_open);
                assert(in_group(groups@, before.len() as int, i));
            } else {
                let g = choose|g: int| in_group(before, g, i);
                assert(groups@[g] == before[g]);
                assert(in_group(groups@, g, i));
            }
        }
    }
    groups
}

proof fn lemma_key_before(
    a: (Seq<char>, Seq<char>),
    b: (Seq<char>, Seq<char>),
    c: (Seq<char>, Seq<char>),
)
    ensures
        key_before(a, b) && key_before(b, c) ==> key_before(a, c),
        key_before(a, b) ==> a != b,
{
    path_order_is_total(a.0, b.0);
    path_order_is_total(b.0, c.0);
    path_order_is_total(a.1, b.1);
    path_order_is_total(b.1, c.1);
    if path_before(a.0, b.0) && path_before(b.0, c.0) {
        path_order_is_transitive(a.0, b.0, c.0);
        path_order_is_total(a.0, c.0);
    }
    if path_before(a.1, b.1) && path_before(b.1, c.1) {
        path_order_is_transitive(a.1, b.1, c.1);
    }
}

proof fn lemma_complete(photos: Seq<PhotoMetadata>, groups: Seq<Vec<usize>>, g: int)
    requires
        photos.len() <= usize::MAX,
        grouped(photos, groups),
        forall|i: int| 0 <= i < photos.len() ==> #[trigger] in_some_group(groups, i),
        0 <= g < groups.len(),
    ensures
        has_all(photos, groups[g]@),
{
    let members = groups[g]@;
    let key = key_at(photos, members[0] as int);
    assert forall|i: int| 0 <= i < photos.len() implies (members.contains(i as usize)
        <==> #[trigger] key_at(photos, i) == key) by {
        if members.contains(i as usize) {
            let k = choose|k: int| 0 <= k < members.len() && members[k] == i as usize;
            assert(groups[g]@[k] == i);
        }
        if key_at(photos, i) == key {
            assert(in_some_group(groups, i));
            let h = choose|h: int| in_group(groups, h, i);
            let k = choose|k: int| 0 <= k < groups[h]@.len() && groups[h]@[k] == i as usize;
            assert(key_at(photos, groups[h]@[k] as int) == key_at(photos, groups[h]@[0] as int));
            if g < h {
                lemma_key_before(
                    key_at(photos, groups[g]@[0] as int),
                    key_at(photos, groups[h]@[0] as int),
                    key,
                );
            } else if h < g {
                lemma_key_before(
                    key_at(photos, groups[h]@[0] as int),
                    key_at(photos, groups[g]@[0] as int),
                    key,
                );
            }
        }
    }
    assert forall|k: int| 0 <= k < members.len() implies #[trigger] members[k] < photos.len() by {
        assert(groups[g]@[k] < photos.len());
    }
}

/// Group by `(directory, file stem)`.
///
/// Output order is deterministic: groups by key, members by index. Every photo is
/// in exactly one group, with all those that share its key.
pub fn group(photos: &[PhotoMetadata]) -> (r: Vec<CompanionGroup>)
    ensures
        is_grouping(photos@, r@),
{
    let count = photos.len();
    let keys = file_keys(photos);
    let ghost v = keys@;
    let files = sorted(keys);
    let groups = split_by_key(photos, &files, Ghost(v));
    let ghost all = groups@;
    let mut out: Vec<CompanionGroup> = Vec::new();
    for members in it: groups
        invariant
            it.seq() == all,
            photos@.len() <= usize::MAX,
            grouped(photos@, all),
            forall|i: int| 0 <= i < photos@.len() ==> #[trigger] in_some_group(all, i),
            out@.len() == it.index(),
            forall|k: int|
                0 <= k < out@.len() ==> (#[trigger] out@[k]).members@ == all[k]@ && is_group(
                    photos@,
                    out@[k],
                ),
    {
        proof {
            lemma_complete(photos@, all, it.index() as int);
        }
        let primary = pick_primary(photos, &members);
        out.push(CompanionGroup { members, primary });
    }
    proof {
        assert forall|i: int| 0 <= i < photos@.len() implies #[trigger] is_grouped(out@, i) by {
            assert(in_some_group(all, i));
            let g = choose|g: int| in_group(all, g, i);
            assert(out@[g].members@.contains(i as usize));
        }
        assert forall|g: int, h: int| 0 <= g < h < out@.len() implies key_before(
            group_key(photos@, #[trigger] out@[g]),
            group_key(photos@, #[trigger] out@[h]),
        ) by {
            assert(out@[g].members@ == all[g]@);
            assert(out@[h].members@ == all[h]@);
        }
    }
    out
}

/// Whether a photo is in one of the groups.
pub open spec fn is_grouped(groups: Seq<CompanionGroup>, i: int) -> bool {
    exists|g: int| 0 <= g < groups.len() && (#[trigger] groups[g]).members@.contains(i as usize)
}

/// Every photo in a group with all those that share its key, the groups in the
/// order of their keys.
pub open spec fn is_grouping(photos: Seq<PhotoMetadata>, groups: Seq<CompanionGroup>) -> bool {
    &&& forall|g: int| 0 <= g < groups.len() ==> is_group(photos, #[trigger] groups[g])
    &&& forall|i: int| 0 <= i < photos.len() ==> #[trigger] is_grouped(groups, i)
    &&& forall|g: int, h: int|
        0 <= g < h < groups.len() ==> key_before(
            group_key(photos, #[trigger] groups[g]),
            group_key(photos, #[trigger] groups[h]),
        )
}

/// Companions are in one group, and a group holds nothing but companions: two
/// photos are in the same group exactly if they share their key.
pub proof fn companions_share_a_group(
    photos: Seq<PhotoMetadata>,
    groups: Seq<CompanionGroup>,
    g: int,
    h: int,
    i: int,
    j: int,
)
    requires
        photos.len() <= usize::MAX,
        is_grouping(photos, groups),
        0 <= g < groups.len(),
        0 <= h < groups.len(),
        0 <= i < photos.len(),
        0 <= j < photos.len(),
        groups[g].members@.contains(i as usize),
        groups[h].members@.contains(j as usize),
    ensures
        g == h <==> key_at(photos, i) == key_at(photos, j),
{
    assert(is_group(photos, groups[g]));
    assert(is_group(photos, groups[h]));
    assert(key_at(photos, i) == group_key(photos, groups[g]));
    assert(key_at(photos, j) == group_key(photos, groups[h]));
    if g < h {
        lemma_key_before(
            group_key(photos, groups[g]),
            group_key(photos, groups[h]),
            group_key(photos, groups[h]),
        );
    } else if h < g {
        lemma_key_before(
            group_key(photos, groups[h]),
            group_key(photos, groups[g]),
            group_key(photos, groups[g]),
        );
    }
}

/// Two increasing sequences of the same numbers are the same.
proof fn lemma_increasing(a: Seq<usize>, b: Seq<usize>, n: int)
    requires
        increasing(a),
        increasing(b),
        forall|x: usize| #[trigger] a.contains(x) <==> b.contains(x),
        0 <= n <= a.len(),
    ensures
        n <= b.len(),
        a.take(n) == b.take(n),
    decreases n,
{
    if n > 0 {
        let k = n - 1;
        lemma_increasing(a, b, k);
        assert forall|j: int| 0 <= j < k implies a[j] == b[j] by {
            assert(a.take(k)[j] == b.take(k)[j]);
        }
        assert(a.contains(a[k]));
        let h = choose|h: int| 0 <= h < b.len() && b[h] == a[k];
        if h < k {
            assert(a[h] < a[k]);
        }
        assert(b.contains(b[k]));
        assert(a.contains(b[k]));
        let m = choose|m: int| 0 <= m < a.len() && a[m] == b[k];
        if m < k {
            assert(b[m] < b[k]);
        }
        if h > k {
            assert(b[k] < b[h]);
            if m > k {
                assert(a[k] < a[m]);
            }
        }
        assert(a.take(n) =~= b.take(n));
    }
}

/// The groups of the same photos have the same keys in the same order.
proof fn lemma_same_keys(
    photos: Seq<PhotoMetadata>,
    a: Seq<CompanionGroup>,
    b: Seq<CompanionGroup>,
    n: int,
)
    requires
        photos.len() <= usize::MAX,
        is_grouping(photos, a),
        is_grouping(photos, b),
        0 <= n <= a.len(),
    ensures
        n <= b.len(),
        forall|g: int|
            0 <= g < n ==> group_key(photos, #[trigger] a[g]) == group_key(photos, b[g]),
    decreases n,
{
    if n > 0 {
        let g = n - 1;
        lemma_same_keys(photos, a, b, g);
        let key = group_key(photos, a[g]);
        assert(is_group(photos, a[g]));
        let i = a[g].members@[0] as int;
        assert(is_grouped(b, i));
        let h = choose|h: int| 0 <= h < b.len() && (#[trigger] b[h]).members@.contains(i as usize);
        assert(is_group(photos, b[h]));
        assert(group_key(photos, b[h]) == key_at(photos, i));
        if h < g {
            assert(group_key(photos, a[h]) == group_key(photos, b[h]));
            lemma_key_before(group_key(photos, a[h]), key, key);
        }
        let other = group_key(photos, b[g]);
        assert(is_group(photos, b[g]));
        let j = b[g].members@[0] as int;
        assert(is_grouped(a, j));
        let m = choose|m: int| 0 <= m < a.len() && (#[trigger] a[m]).members@.contains(j as usize);
        assert(is_group(photos, a[m]));
        assert(group_key(photos, a[m]) == key_at(photos, j));
        if m < g {
            assert(group_key(photos, a[m]) == group_key(photos, b[m]));
            lemma_key_before(group_key(photos, b[m]), other, other);
        }
        if h > g && m > g {
            assert(key_before(other, key));
            assert(key_before(key, other));
            lemma_key_before(key, other, key);
            lemma_key_before(key, key, key);
        }
    }
}

/// There is one way to group photos.
pub proof fn groupings_are_the_same(
    photos: Seq<PhotoMetadata>,
    a: Seq<CompanionGroup>,
    b: Seq<CompanionGroup>,
)
    requires
        photos.len() <= usize::MAX,
        is_grouping(photos, a),
        is_grouping(photos, b),
    ensures
        a.len() == b.len(),
        forall|g: int|
            0 <= g < a.len() ==> (#[trigger] a[g]).members@ == b[g].members@ && a[g].primary
                == b[g].primary,
{
    lemma_same_keys(photos, a, b, a.len() as int);
    lemma_same_keys(photos, b, a, b.len() as int);
    assert forall|g: int| 0 <= g < a.len() implies (#[trigger] a[g]).members@ == b[g].members@
        && a[g].primary == b[g].primary by {
        assert(is_group(photos, a[g]));
        assert(is_group(photos, b[g]));
        let (x, y) = (a[g].members@, b[g].members@);
        assert forall|i: usize| #[trigger] x.contains(i) <==> y.contains(i) by {
            if x.contains(i) || y.contains(i) {
                assert(i < photos.len());
                assert(key_at(photos, i as int) == group_key(photos, a[g]));
            }
        }
        lemma_increasing(x, y, x.len() as int);
        lemma_increasing(y, x, y.len() as int);
        assert(x.take(x.len() as int) =~= x);
        assert(y.take(y.len() as int) =~= y);
    }
}

impl CompanionGroup {
    /// A group is worth moving only if it carries actual media. A lone `.XMP`
    /// or (without `--include-video`) a lone `.MOV` is not, and neither is a
    /// photo in name only.
    pub fn is_shippable(&self, photos: &[PhotoMetadata], include_video: bool) -> (b: bool)
        requires
            forall|k: int| 0 <= k < self.members@.len() ==> #[trigger] self.members@[k] < photos@.len(),
        ensures
            b == exists|k: int|
                0 <= k < self.members@.len() && is_media(
                    photos@[#[trigger] self.members@[k] as int],
                    include_video,
                ),
            (exists|k: int|
                0 <= k < self.members@.len() && photos@[#[trigger] self.members@[k] as int].signature_ok
                    && (photos@[self.members@[k] as int].kind == FileKind::Image
                    || photos@[self.members@[k] as int].kind == FileKind::Raw)) ==> b,
            is_group(photos@, *self) ==> b == carries_media(
                photos@,
                group_key(photos@, *self),
                include_video,
            ),
    {
        let count = photos.len();
        let mut k: usize = 0;
        while k < self.members.len()
            invariant
                forall|k: int|
                    0 <= k < self.members@.len() ==> #[trigger] self.members@[k] < photos@.len(),
                k <= self.members@.len(),
                forall|j: int|
                    0 <= j < k ==> !is_media(
                        photos@[#[trigger] self.members@[j] as int],
                        include_video,
                    ),
            decreases self.members@.len() - k,
        {
            let p = &photos[self.members[k]];
            let media = match p.kind {
                FileKind::Image | FileKind::Raw => p.signature_ok,
                FileKind::Video => include_video,
                FileKind::Sidecar => false,
            };
            if media {
                assert(is_media(photos@[self.members@[k as int] as int], include_video));
                proof {
                    if is_group(photos@, *self) {
                        assert(self.members@.contains(self.members@[k as int]));
                        assert(key_at(photos@, self.members@[k as int] as int) == group_key(
                            photos@,
                            *self,
                        ));
                    }
                }
                return true;
            }
            k += 1;
        }
        proof {
            if is_group(photos@, *self) && carries_media(
                photos@,
                group_key(photos@, *self),
                include_video,
            ) {
                let j = choose|j: int|
                    0 <= j < photos@.len() && #[trigger] key_at(photos@, j) == group_key(
                        photos@,
                        *self,
                    ) && is_media(photos@[j], include_video);
                assert(self.members@.contains(j as usize));
                let q = choose|q: int| 0 <= q < self.members@.len() && self.members@[q] == j as usize;
                assert(!is_media(photos@[self.members@[q] as int], include_video));
            }
        }
        false
    }
}

/// A photo that is what its name says is always worth moving, with all that belongs to
/// it, whether videos are wanted or not.
pub proof fn photos_are_worth_moving(
    photos: Seq<PhotoMetadata>,
    i: int,
    key: (Seq<char>, Seq<char>),
    include_video: bool,
)
    requires
        0 <= i < photos.len(),
        key_at(photos, i) == key,
        photos[i].kind == FileKind::Image || photos[i].kind == FileKind::Raw,
        photos[i].signature_ok,
    ensures
        carries_media(photos, key, include_video),
{
    assert(is_media(photos[i], include_video));
}

/// A video is worth moving, with all that belongs to it, where videos are wanted.
pub proof fn wanted_videos_are_worth_moving(
    photos: Seq<PhotoMetadata>,
    i: int,
    key: (Seq<char>, Seq<char>),
)
    requires
        0 <= i < photos.len(),
        key_at(photos, i) == key,
        photos[i].kind == FileKind::Video,
    ensures
        carries_media(photos, key, true),
{
    assert(is_media(photos[i], true));
}

/// Sidecars, files that are photos in name only, and videos where they are not wanted,
/// are not worth moving, however many of them belong together.
pub proof fn nothing_else_is_worth_moving(
    photos: Seq<PhotoMetadata>,
    key: (Seq<char>, Seq<char>),
    include_video: bool,
)
    requires
        forall|i: int|
            0 <= i < photos.len() && #[trigger] key_at(photos, i) == key ==> {
                ||| photos[i].kind == FileKind::Sidecar
                ||| photos[i].kind == FileKind::Video && !include_video
                ||| photos[i].kind != FileKind::Video && !photos[i].signature_ok
            },
    ensures
        !carries_media(photos, key, include_video),
{
}

/// How good the date of a photo is: the sooner its source comes in the fallback chain,
/// the smaller the number.
pub open spec fn doubt(source: DateSource) -> int {
    match source {
        DateSource::ExifDateTimeOriginal => 0,
        DateSource::ExifCreateDate => 1,
        DateSource::Filename => 2,
        DateSource::Mtime => 3,
        DateSource::CreationTime => 4,
        DateSource::ExifModifyDate => 5,
        DateSource::Unknown => 6,
    }
}

/// Companions take their date from the one whose date is the surest. Among those it is an
/// image before a raw file, a raw file before a video, and a video before a sidecar; so a
/// date that only a sidecar has is used, and never a worse one than there is.
pub proof fn companions_take_the_surest_date(
    photos: Seq<PhotoMetadata>,
    key: (Seq<char>, Seq<char>),
    j: int,
)
    requires
        0 <= j < photos.len(),
        key_at(photos, j) == key,
    ensures
        primary_of(photos, key) matches Some(p) && {
            &&& 0 <= p < photos.len()
            &&& key_at(photos, p) == key
            &&& doubt(photos[p].date_source) <= doubt(photos[j].date_source)
            &&& photos[p].date_source == photos[j].date_source ==> {
                ||| photos[p].kind == photos[j].kind
                ||| photos[p].kind == FileKind::Image
                ||| photos[p].kind == FileKind::Raw && photos[j].kind != FileKind::Image
                ||| photos[j].kind == FileKind::Sidecar
            }
        },
{
    primary_is_best(photos, key, photos.len() as int);
}

} // verus!
