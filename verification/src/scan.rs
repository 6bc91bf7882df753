//! Pass 1: which files are worth opening, and the order of what was read.
//!
//! The walk and the reading stand outside.

use crate::formats::{
    classify, image_extensions, kind_of, kinds_go_by_their_extensions, raw_extensions,
    sidecar_extensions, video_extensions, FileKind,
};
use crate::metadata::PhotoMetadata;
use crate::paths::{
    extension_in, extension_part, filed_before, has_index, in_order, name_and_directory_come_apart,
    name_of_path, name_part, numbered, path_before, path_order_is_total, sorted,
    stem_and_extension_come_apart, under, Filed,
};
use crate::text::{begins, chars_of, lower, starts_with, text_of};
use vstd::prelude::*;

verus! {

/// Temp files this tool writes; never re-ingest our own output.
pub const TMP_PREFIX: &'static str = ".po-tmp-";

/// What becomes of a file.
#[derive(Debug, Clone, Copy, PartialEq, Eq, Structural)]
pub enum Verdict {
    /// One of our own temp files.
    Ours,
    /// Not our business, or not wanted.
    Ignored,
    /// Worth opening.
    Open(FileKind),
}

/// What becomes of a file by its name.
pub open spec fn verdict_on(path: Seq<char>, include_sidecars: bool) -> Verdict {
    let name = name_of_path(path);
    if starts_with(name, TMP_PREFIX@) {
        Verdict::Ours
    } else {
        match extension_in(name) {
            None => Verdict::Ignored,
            Some(ext) => match kind_of(ext) {
                None => Verdict::Ignored,
                Some(kind) => if kind is Sidecar && !include_sidecars {
                    Verdict::Ignored
                } else {
                    Verdict::Open(kind)
                },
            },
        }
    }
}

pub fn consider(path: &str, include_sidecars: bool) -> (r: Verdict)
    ensures
        r == verdict_on(path@, include_sidecars),
{
    let v = chars_of(path);
    let name = name_part(&v);
    if begins(name, &chars_of(TMP_PREFIX)) {
        return Verdict::Ours;
    }
    match extension_part(name) {
        None => Verdict::Ignored,
        Some(ext) => match classify(text_of(ext).as_str()) {
            None => Verdict::Ignored,
            Some(kind) => {
                if kind == FileKind::Sidecar && !include_sidecars {
                    Verdict::Ignored
                } else {
                    Verdict::Open(kind)
                }
            },
        },
    }
}

/// A file worth opening. Only the path relative to the scan root is stored:
/// at a million files the absolute copy is tens of megabytes of duplicate
/// prefix, and joining it to the root reconstructs it for free.
#[derive(Debug, Clone)]
pub struct Candidate {
    pub rel: String,
    pub kind: FileKind,
}

/// What a `Candidate` stands for.
pub struct CandidateView {
    pub rel: Seq<char>,
    pub kind: FileKind,
}

impl View for Candidate {
    type V = CandidateView;

    open spec fn view(&self) -> CandidateView {
        CandidateView { rel: self.rel@, kind: self.kind }
    }
}

pub open spec fn candidate_views(v: Seq<Candidate>) -> Seq<CandidateView> {
    v.map_values(|c: Candidate| c@)
}

/// The files worth opening, in the order in which they came.
pub open spec fn candidates_of(paths: Seq<String>, include_sidecars: bool) -> Seq<CandidateView>
    decreases paths.len(),
{
    if paths.len() == 0 {
        seq![]
    } else {
        let before = candidates_of(paths.drop_last(), include_sidecars);
        match verdict_on(paths.last()@, include_sidecars) {
            Verdict::Open(kind) => before.push(CandidateView { rel: paths.last()@, kind }),
            _ => before,
        }
    }
}

/// How many of the files are ignored.
pub open spec fn ignored_of(paths: Seq<String>, include_sidecars: bool) -> nat
    decreases paths.len(),
{
    if paths.len() == 0 {
        0
    } else {
        let before = ignored_of(paths.drop_last(), include_sidecars);
        match verdict_on(paths.last()@, include_sidecars) {
            Verdict::Ignored => before + 1,
            _ => before,
        }
    }
}

/// Goes through the files of the source tree, given by their paths below its
/// root, and returns everything worth opening and how many were ignored.
pub fn collect_candidates(paths: Vec<String>, include_sidecars: bool) -> (r: (Vec<Candidate>, u64))
    ensures
        candidate_views(r.0@) == candidates_of(paths@, include_sidecars),
        r.1 == ignored_of(paths@, include_sidecars),
{
    let mut out: Vec<Candidate> = Vec::new();
    let mut ignored: u64 = 0;
    let total = paths.len();
    let ghost all = paths@;
    assert(candidate_views(out@) =~= candidates_of(all.take(0), include_sidecars));
    for path in it: paths
        invariant
            it.seq() == all,
            all.len() == total,
            candidate_views(out@) == candidates_of(
                all.take(it.index() as int),
                include_sidecars,
            ),
            ignored == ignored_of(all.take(it.index() as int), include_sidecars),
            ignored <= it.index(),
    {
        let ghost i = it.index() as int;
        assert(all.take(i + 1).drop_last() =~= all.take(i));
        assert(all.take(i + 1).last() == all[i]);
        match consider(path.as_str(), include_sidecars) {
            Verdict::Open(kind) => {
                let ghost before = candidate_views(out@);
                let ghost rel = path@;
                out.push(Candidate { rel: path, kind });
                assert(candidate_views(out@) =~= before.push(CandidateView { rel, kind }));
            },
            Verdict::Ignored => {
                ignored = ignored + 1;
            },
            Verdict::Ours => {},
        }
    }
    assert(all.take(all.len() as int) =~= all);
    (out, ignored)
}

/// Append the shorter side onto the longer one, so merging a fold tree copies
/// each element as few times as possible.
pub fn merge<A, B>(a: (Vec<A>, Vec<B>), b: (Vec<A>, Vec<B>)) -> (r: (Vec<A>, Vec<B>))
    ensures
        r.0@ == (if a.0@.len() < b.0@.len() {
            b.0@ + a.0@
        } else {
            a.0@ + b.0@
        }),
        r.1@ == (if a.1@.len() < b.1@.len() {
            b.1@ + a.1@
        } else {
            a.1@ + b.1@
        }),
{
    let (mut photos, mut failures) = a;
    let (mut other_photos, mut other_failures) = b;
    if photos.len() < other_photos.len() {
        std::mem::swap(&mut photos, &mut other_photos);
    }
    if failures.len() < other_failures.len() {
        std::mem::swap(&mut failures, &mut other_failures);
    }
    photos.append(&mut other_photos);
    failures.append(&mut other_failures);
    (photos, failures)
}

#[derive(Debug)]
pub struct ScanResult {
    pub photos: Vec<PhotoMetadata>,
    /// The files that could not be read, by their full paths, and what is wrong with
    /// them.
    pub failures: Vec<(String, String)>,
    /// Files whose extension is not ours.
    pub ignored: u64,
}

/// The things in the order that a list of places gives.
fn reordered<T>(v: Vec<T>, order: &Vec<Filed>, Ghost(filing): Ghost<Seq<Filed>>) -> (r: Vec<T>)
    requires
        filing.len() == v@.len(),
        numbered(filing),
        in_order(filing, order@),
    ensures
        r@.len() == v@.len(),
        forall|p: int| 0 <= p < r@.len() ==> #[trigger] r@[p] == v@[order@[p].index as int],
{
    let ghost all = v@;
    let mut slots: Vec<Option<T>> = Vec::new();
    for x in it: v
        invariant
            it.seq() == all,
            slots@.len() == it.index(),
            forall|k: int| 0 <= k < slots@.len() ==> #[trigger] slots@[k] == Some(all[k]),
    {
        slots.push(Some(x));
    }
    let mut r: Vec<T> = Vec::new();
    let mut p: usize = 0;
    while p < order.len()
        invariant
            filing.len() == all.len(),
            in_order(filing, order@),
            p <= order@.len(),
            slots@.len() == all.len(),
            r@.len() == p,
            forall|q: int| 0 <= q < p ==> #[trigger] r@[q] == all[order@[q].index as int],
            forall|q: int|
                p <= q < order@.len() ==> slots@[(#[trigger] order@[q]).index as int] == Some(
                    all[order@[q].index as int],
                ),
        decreases order@.len() - p,
    {
        let at = order[p].index;
        let ghost before = slots@;
        let mut x: Option<T> = None;
        std::mem::swap(&mut x, &mut slots[at]);
        proof {
            assert forall|q: int| p + 1 <= q < order@.len() implies slots@[(
            #[trigger] order@[q]).index as int] == Some(all[order@[q].index as int]) by {
                assert(filed_before(order@[p as int], order@[q]));
                assert(order@[p as int] == filing[order@[p as int].index as int]);
                assert(order@[q] == filing[order@[q].index as int]);
                crate::paths::filed_order(order@[p as int], order@[q], order@[q]);
                assert(order@[p as int].index != order@[q].index);
                assert(slots@[order@[q].index as int] == before[order@[q].index as int]);
            }
        }
        match x {
            Some(x) => r.push(x),
            None => {},
        }
        p += 1;
    }
    r
}

/// Whether `r` holds the things of `v`, each exactly once, in the given order.
pub open spec fn is_reordering<T>(v: Seq<T>, r: Seq<T>, order: Seq<int>) -> bool {
    &&& r.len() == v.len()
    &&& order.len() == v.len()
    &&& order.no_duplicates()
    &&& forall|k: int| 0 <= k < v.len() ==> #[trigger] order.contains(k)
    &&& forall|p: int|
        0 <= p < r.len() ==> 0 <= #[trigger] order[p] < v.len() && r[p] == v[order[p]]
}

/// Whether paths are in order, equal ones as they came.
pub open spec fn is_path_order(paths: Seq<Seq<char>>, order: Seq<int>) -> bool {
    forall|i: int, j: int|
        0 <= i < j < order.len() ==> path_before(
            paths[#[trigger] order[i]],
            paths[#[trigger] order[j]],
        ) || paths[order[i]] == paths[order[j]] && order[i] < order[j]
}

pub open spec fn photo_paths(v: Seq<PhotoMetadata>) -> Seq<Seq<char>> {
    v.map_values(|p: PhotoMetadata| p.rel_path@)
}

pub open spec fn failure_paths(v: Seq<(String, String)>) -> Seq<Seq<char>> {
    v.map_values(|f: (String, String)| f.0@)
}

/// Whether a filing is that of the paths.
spec fn files(paths: Seq<Seq<char>>, filing: Seq<Filed>) -> bool {
    &&& filing.len() == paths.len()
    &&& numbered(filing)
    &&& forall|k: int|
        0 <= k < filing.len() ==> (#[trigger] filing[k]).dir@ == paths[k] && filing[k].name@ == ""@
}

/// The order in which a sorted filing puts the paths.
spec fn order_of(sorted: Seq<Filed>) -> Seq<int> {
    sorted.map_values(|f: Filed| f.index as int)
}

proof fn lemma_order(paths: Seq<Seq<char>>, filing: Seq<Filed>, sorted: Seq<Filed>)
    requires
        files(paths, filing),
        in_order(filing, sorted),
    ensures
        is_path_order(paths, order_of(sorted)),
        order_of(sorted).no_duplicates(),
        forall|k: int| 0 <= k < paths.len() ==> #[trigger] order_of(sorted).contains(k),
{
    let order = order_of(sorted);
    assert forall|i: int, j: int| 0 <= i < j < order.len() implies path_before(
        paths[#[trigger] order[i]],
        paths[#[trigger] order[j]],
    ) || paths[order[i]] == paths[order[j]] && order[i] < order[j] by {
        assert(filed_before(sorted[i], sorted[j]));
        assert(sorted[i] == filing[sorted[i].index as int]);
        assert(sorted[j] == filing[sorted[j].index as int]);
    }
    assert forall|k: int| 0 <= k < paths.len() implies #[trigger] order.contains(k) by {
        assert(has_index(sorted, k));
        let p = choose|p: int| 0 <= p < sorted.len() && (#[trigger] sorted[p]).index == k;
        assert(order[p] == k);
    }
    assert forall|i: int, j: int|
        0 <= i < order.len() && 0 <= j < order.len() && i != j implies order[i] != order[j] by {
        assert(sorted[i] == filing[sorted[i].index as int]);
        assert(sorted[j] == filing[sorted[j].index as int]);
        crate::paths::filed_order(sorted[i], sorted[j], sorted[j]);
        if i < j {
            assert(filed_before(sorted[i], sorted[j]));
        } else {
            assert(filed_before(sorted[j], sorted[i]));
        }
    }
}

fn sort_photos(photos: Vec<PhotoMetadata>) -> (r: Vec<PhotoMetadata>)
    ensures
        is_arranged(photos@, photo_paths(photos@), r@),
{
    let ghost paths = photo_paths(photos@);
    let mut keys: Vec<Filed> = Vec::new();
    let mut i: usize = 0;
    while i < photos.len()
        invariant
            paths == photo_paths(photos@),
            i <= photos@.len(),
            files(paths.take(i as int), keys@),
        decreases photos@.len() - i,
    {
        keys.push(
            Filed { dir: photos[i].rel_path.clone(), name: "".to_owned(), index: i },
        );
        assert(paths.take(i + 1)[i as int] == photos@[i as int].rel_path@);
        i += 1;
    }
    assert(paths.take(i as int) =~= paths);
    let ghost filing = keys@;
    let order = sorted(keys);
    let r = reordered(photos, &order, Ghost(filing));
    proof {
        lemma_order(paths, filing, order@);
        assert(is_reordering(photos@, r@, order_of(order@)));
    }
    r
}

fn sort_failures(failures: Vec<(String, String)>) -> (r: Vec<(String, String)>)
    ensures
        is_arranged(failures@, failure_paths(failures@), r@),
{
    let ghost paths = failure_paths(failures@);
    let mut keys: Vec<Filed> = Vec::new();
    let mut i: usize = 0;
    while i < failures.len()
        invariant
            paths == failure_paths(failures@),
            i <= failures@.len(),
            files(paths.take(i as int), keys@),
        decreases failures@.len() - i,
    {
        keys.push(Filed { dir: failures[i].0.clone(), name: "".to_owned(), index: i });
        assert(paths.take(i + 1)[i as int] == failures@[i as int].0@);
        i += 1;
    }
    assert(paths.take(i as int) =~= paths);
    let ghost filing = keys@;
    let order = sorted(keys);
    let r = reordered(failures, &order, Ghost(filing));
    proof {
        lemma_order(paths, filing, order@);
        assert(is_reordering(failures@, r@, order_of(order@)));
    }
    r
}

/// Whether `r` holds the things of `v`, each exactly once, by the order of their paths.
pub open spec fn is_arranged<T>(v: Seq<T>, paths: Seq<Seq<char>>, r: Seq<T>) -> bool {
    exists|order: Seq<int>|
        is_reordering(v, r, order) && #[trigger] is_path_order(paths, order)
}

/// Whether two runs came by the same things, in whatever order.
pub open spec fn same_things<T>(v: Seq<T>, w: Seq<T>) -> bool {
    forall|x: T| #[trigger] v.contains(x) <==> w.contains(x)
}

/// What is arranged holds the same things, and its paths go up.
proof fn lemma_arranged<T>(v: Seq<T>, path: spec_fn(T) -> Seq<char>, r: Seq<T>)
    requires
        is_arranged(v, v.map_values(path), r),
        v.map_values(path).no_duplicates(),
    ensures
        same_things(v, r),
        forall|i: int, j: int|
            0 <= i < j < r.len() ==> path_before(path(#[trigger] r[i]), path(#[trigger] r[j])),
{
    let paths = v.map_values(path);
    let order = choose|order: Seq<int>|
        is_reordering(v, r, order) && #[trigger] is_path_order(paths, order);
    assert forall|x: T| #[trigger] v.contains(x) <==> r.contains(x) by {
        if v.contains(x) {
            let k = choose|k: int| 0 <= k < v.len() && v[k] == x;
            assert(order.contains(k));
            let p = choose|p: int| 0 <= p < order.len() && order[p] == k;
            assert(r[p] == v[order[p]]);
        }
        if r.contains(x) {
            let p = choose|p: int| 0 <= p < r.len() && r[p] == x;
            assert(r[p] == v[order[p]]);
        }
    }
    assert forall|i: int, j: int| 0 <= i < j < r.len() implies path_before(
        path(#[trigger] r[i]),
        path(#[trigger] r[j]),
    ) by {
        assert(r[i] == v[order[i]] && r[j] == v[order[j]]);
        assert(paths[order[i]] == path(r[i]) && paths[order[j]] == path(r[j]));
        assert(order[i] != order[j]);
    }
}

proof fn lemma_same_place<T>(r: Seq<T>, s: Seq<T>, path: spec_fn(T) -> Seq<char>, i: int)
    requires
        same_things(r, s),
        forall|i: int, j: int|
            0 <= i < j < r.len() ==> path_before(path(#[trigger] r[i]), path(#[trigger] r[j])),
        forall|i: int, j: int|
            0 <= i < j < s.len() ==> path_before(path(#[trigger] s[i]), path(#[trigger] s[j])),
        0 <= i < r.len(),
    ensures
        i < s.len(),
        forall|j: int| 0 <= j <= i ==> #[trigger] r[j] == s[j],
    decreases i,
{
    if i > 0 {
        lemma_same_place(r, s, path, i - 1);
    }
    assert(r.contains(r[i]));
    let k = choose|k: int| 0 <= k < s.len() && s[k] == r[i];
    path_order_is_total(path(r[i]), path(r[i]));
    if k < i {
        assert(s[k] == r[k]);
        assert(path_before(path(r[k]), path(r[i])));
    }
    if k > i {
        assert(s.contains(s[i]) && r.contains(s[i]));
        let m = choose|m: int| 0 <= m < r.len() && r[m] == s[i];
        if m < i {
            assert(s[m] == r[m]);
            assert(path_before(path(s[m]), path(s[i])));
            path_order_is_total(path(s[i]), path(s[i]));
        } else {
            assert(path_before(path(s[i]), path(s[k])));
            if m > i {
                assert(path_before(path(r[i]), path(r[m])));
            }
            path_order_is_total(path(s[i]), path(s[k]));
        }
    }
}

proof fn lemma_same_order<T>(r: Seq<T>, s: Seq<T>, path: spec_fn(T) -> Seq<char>)
    requires
        same_things(r, s),
        forall|i: int, j: int|
            0 <= i < j < r.len() ==> path_before(path(#[trigger] r[i]), path(#[trigger] r[j])),
        forall|i: int, j: int|
            0 <= i < j < s.len() ==> path_before(path(#[trigger] s[i]), path(#[trigger] s[j])),
    ensures
        r == s,
{
    if r.len() > 0 {
        lemma_same_place(r, s, path, r.len() - 1);
    }
    if s.len() > 0 {
        assert forall|x: T| #[trigger] s.contains(x) <==> r.contains(x) by {
            assert(r.contains(x) <==> s.contains(x));
        }
        lemma_same_place(s, r, path, s.len() - 1);
    }
    assert(r =~= s);
}

proof fn lemma_arranged_alike<T>(
    v: Seq<T>,
    w: Seq<T>,
    path: spec_fn(T) -> Seq<char>,
    r: Seq<T>,
    s: Seq<T>,
)
    requires
        same_things(v, w),
        v.map_values(path).no_duplicates(),
        w.map_values(path).no_duplicates(),
        is_arranged(v, v.map_values(path), r),
        is_arranged(w, w.map_values(path), s),
    ensures
        r == s,
{
    lemma_arranged(v, path, r);
    lemma_arranged(w, path, s);
    assert(same_things(r, s)) by {
        assert forall|x: T| #[trigger] r.contains(x) <==> s.contains(x) by {
            assert(v.contains(x) <==> w.contains(x));
            assert(v.contains(x) <==> r.contains(x));
            assert(w.contains(x) <==> s.contains(x));
        }
    }
    lemma_same_order(r, s, path);
}

/// Two runs over the same files give the same result, in whatever order their files
/// came: what the run finds is arranged by path.
pub proof fn order_of_arrival_does_not_matter(
    photos: (Seq<PhotoMetadata>, Seq<PhotoMetadata>),
    failures: (Seq<(String, String)>, Seq<(String, String)>),
    a: ScanResult,
    b: ScanResult,
)
    requires
        same_things(photos.0, photos.1),
        same_things(failures.0, failures.1),
        photo_paths(photos.0).no_duplicates(),
        photo_paths(photos.1).no_duplicates(),
        failure_paths(failures.0).no_duplicates(),
        failure_paths(failures.1).no_duplicates(),
        is_arranged(photos.0, photo_paths(photos.0), a.photos@),
        is_arranged(photos.1, photo_paths(photos.1), b.photos@),
        is_arranged(failures.0, failure_paths(failures.0), a.failures@),
        is_arranged(failures.1, failure_paths(failures.1), b.failures@),
    ensures
        a.photos@ == b.photos@,
        a.failures@ == b.failures@,
        a.photos@.len() == photos.0.len(),
        a.failures@.len() == failures.0.len(),
{
    let photo = |p: PhotoMetadata| p.rel_path@;
    let failure = |f: (String, String)| f.0@;
    assert(photo_paths(photos.0) =~= photos.0.map_values(photo));
    assert(photo_paths(photos.1) =~= photos.1.map_values(photo));
    assert(failure_paths(failures.0) =~= failures.0.map_values(failure));
    assert(failure_paths(failures.1) =~= failures.1.map_values(failure));
    lemma_arranged_alike(photos.0, photos.1, photo, a.photos@, b.photos@);
    lemma_arranged_alike(failures.0, failures.1, failure, a.failures@, b.failures@);
}

/// Puts what was read of the source tree in order, in whatever order it came.
///
/// Sorting by relative path is what makes the whole run reproducible; failures
/// are reported too, and the fold merges them out of order.
pub fn arrange(
    photos: Vec<PhotoMetadata>,
    failures: Vec<(String, String)>,
    ignored: u64,
) -> (r: ScanResult)
    ensures
        is_arranged(photos@, photo_paths(photos@), r.photos@),
        is_arranged(failures@, failure_paths(failures@), r.failures@),
        r.ignored == ignored,
{
    ScanResult { photos: sort_photos(photos), failures: sort_failures(failures), ignored }
}

/// A file with the extension of an image, a raw file or a video is opened, wherever it is
/// and whatever the case of its letters, and one with the extension of a sidecar where
/// sidecars are wanted. Any other file is ignored. Only our own temp files are passed
/// over in silence.
pub proof fn media_are_opened_wherever_they_are(
    dir: Seq<char>,
    stem: Seq<char>,
    ext: Seq<char>,
    include_sidecars: bool,
)
    requires
        stem.len() > 0,
        !stem.contains('/') && !ext.contains('/') && !ext.contains('.'),
        !starts_with(stem + seq!['.'] + ext, ".po-tmp-"@),
    ensures
        ({
            let verdict = verdict_on(under(dir, stem + seq!['.'] + ext), include_sidecars);
            let e = lower(ext);
            &&& image_extensions().contains(e) ==> verdict == Verdict::Open(FileKind::Image)
            &&& raw_extensions().contains(e) ==> verdict == Verdict::Open(FileKind::Raw)
            &&& video_extensions().contains(e) ==> verdict == Verdict::Open(FileKind::Video)
            &&& sidecar_extensions().contains(e) && include_sidecars ==> verdict == Verdict::Open(
                FileKind::Sidecar,
            )
            &&& !image_extensions().contains(e) && !raw_extensions().contains(e)
                && !video_extensions().contains(e) && !(include_sidecars
                && sidecar_extensions().contains(e)) ==> verdict == Verdict::Ignored
        }),
{
    let name = stem + seq!['.'] + ext;
    assert(!name.contains('/')) by {
        assert forall|i: int| 0 <= i < name.len() implies name[i] != '/' by {
            if i < stem.len() {
                assert(stem.contains(stem[i]));
            } else if i > stem.len() {
                assert(ext.contains(ext[i - stem.len() - 1]));
            }
        }
    }
    name_and_directory_come_apart(dir, name);
    stem_and_extension_come_apart(stem, ext);
    kinds_go_by_their_extensions(ext);
}

/// Nothing that is worth opening is lost on the way.
pub proof fn every_file_worth_opening_is_kept(
    paths: Seq<String>,
    include_sidecars: bool,
    i: int,
    kind: FileKind,
)
    requires
        0 <= i < paths.len(),
        verdict_on(paths[i]@, include_sidecars) == Verdict::Open(kind),
    ensures
        candidates_of(paths, include_sidecars).contains(
            CandidateView { rel: paths[i]@, kind },
        ),
    decreases paths.len(),
{
    let before = candidates_of(paths.drop_last(), include_sidecars);
    let all = candidates_of(paths, include_sidecars);
    let c = CandidateView { rel: paths[i]@, kind };
    if i < paths.len() - 1 {
        assert(paths.drop_last()[i] == paths[i]);
        every_file_worth_opening_is_kept(paths.drop_last(), include_sidecars, i, kind);
        let k = choose|k: int| 0 <= k < before.len() && before[k] == c;
        assert(all[k] == c);
    } else {
        assert(all[before.len() as int] == c);
    }
}

/// No file is both opened and counted as ignored, and none is so twice.
pub proof fn files_are_opened_or_ignored_once(paths: Seq<String>, include_sidecars: bool)
    ensures
        candidates_of(paths, include_sidecars).len() + ignored_of(paths, include_sidecars)
            <= paths.len(),
    decreases paths.len(),
{
    if paths.len() > 0 {
        files_are_opened_or_ignored_once(paths.drop_last(), include_sidecars);
    }
}

} // verus!
