//! What holds of every plan, whatever the disk holds.

use crate::adaptive::Level;
use crate::companion::{
    companions_share_a_group, group_key, groupings_are_the_same, is_group, is_grouped, is_grouping,
    key_at, photos_are_worth_moving,
};
use crate::components::relative_to;
use crate::config::{DedupMode, Mode, OnConflict, Options};
use crate::dedup::{identical, of_size, Contents};
use crate::formats::FileKind;
use crate::metadata::file_name_in;
use crate::paths::{
    extension_in, name_and_directory_come_apart, parent_of, stem_and_extension_come_apart, stem_of,
    under,
};
use crate::plan::{
    all_taken, atlas_after, copy_or_move, dir_of_photo, first_free, first_same, group_at, has_room,
    is_first_free, is_free, key_char, level_for, nowhere_to_go, path_key, plan_of, plan_photo,
    plans_grow, point_of, primary_at, progress, segments_for, ships, stuck_at, subject_for,
    suffixed, tally, target_of, template_text, wanted_path, Action, Job, Op, PlanState, Planned,
    Reason, World,
};
use crate::sanitize::{file_name_is_clean, file_name_of, is_clean, is_illegal};
use crate::template::{rendered_parts_are_clean, rendered_path_splits};
use crate::text::{ascii_lower, decimal, lemma_last_index, lower, split_any};
use crate::twins::{first_twin, is_twin, TwinView};
use vstd::prelude::*;

verus! {

/// Names that differ only in the case of ASCII letters have the same key, so
/// that a case-insensitive filesystem is never handed both.
pub proof fn keys_ignore_case(path: Seq<char>)
    ensures
        path_key(lower(path)) == path_key(path),
    decreases path.len(),
{
    if path.len() > 0 {
        keys_ignore_case(path.drop_last());
        assert(lower(path).drop_last() =~= lower(path.drop_last()));
        lemma_key_char(path.last());
    } else {
        assert(lower(path) =~= path);
    }
}

proof fn lemma_key_char(c: char)
    ensures
        key_char(ascii_lower(c)) == key_char(c),
        key_char('\\') == key_char('/'),
{
}

/// If some number makes a path free, then a first one does.
proof fn lemma_first_free_exists(
    w: World,
    root: Seq<char>,
    reserved: Set<Seq<char>>,
    path: Seq<char>,
    n: nat,
)
    requires
        n >= 1,
        is_free(w, root, reserved, suffixed(path, n)),
    ensures
        is_first_free(w, root, reserved, path, first_free(w, root, reserved, path)),
    decreases n,
{
    if is_first_free(w, root, reserved, path, n) {
    } else {
        let m = choose|m: nat| 1 <= m < n && is_free(w, root, reserved, #[trigger] suffixed(path, m));
        lemma_first_free_exists(w, root, reserved, path, m);
    }
}

/// Everything that is shared by the laws below: what one photo adds to a plan.
proof fn lemma_photo(w: World, job: Job, i: int, dir: Seq<char>, st: PlanState)
    requires
        0 <= i < job.photos.len(),
    ensures
        ({
            let photo = job.photos[i];
            let p = plan_photo(w, job.opts, job.done, job.index, photo, dir, st);
            let op = p.op;
            &&& op.source == photo.rel_path@
            &&& op.bytes == photo.size
            &&& st.reserved.subset_of(p.state.reserved)
            &&& op.action.pending() ==> op.dest is Some && p.state.reserved.contains(
                path_key(op.dest.unwrap()),
            )
            &&& op.action.pending() && !nowhere_to_go(w, job.opts, job.done, job.index, photo, dir, st)
                ==> !st.reserved.contains(path_key(op.dest.unwrap()))
            &&& !nowhere_to_go(w, job.opts, job.done, job.index, photo, dir, st) ==> follows_the_rules(w, job, op)
        }),
{
    let photo = job.photos[i];
    let path = wanted_path(photo, dir);
    if !all_taken(w, job.opts.dest@, st.reserved, path) {
        let n = choose|n: nat|
            1 <= n <= u32::MAX && #[trigger] is_free(
                w,
                job.opts.dest@,
                st.reserved,
                suffixed(path, n),
            );
        lemma_first_free_exists(w, job.opts.dest@, st.reserved, path, n);
    }
    let abs = under(job.opts.source@, photo.rel_path@);
    lemma_twin(w.contents, job.opts.source@, st.twins, abs, photo.size, 0);
    lemma_same(w.contents, abs, of_size(job.index, photo.size), photo.size, 0);
    let p = plan_photo(w, job.opts, job.done, job.index, photo, dir, st);
    if !nowhere_to_go(w, job.opts, job.done, job.index, photo, dir, st) {
        let same = first_same(w.contents, abs, of_size(job.index, photo.size), photo.size, 0);
        if p.op.reason is DuplicateOfDestination {
            let t = same.unwrap();
            assert(identical(
                w.contents,
                abs,
                of_size(job.index, p.op.bytes)[t],
                p.op.bytes as nat,
            ));
            assert(follows_the_rules(w, job, p.op));
        } else if p.op.reason is DuplicateOfSource {
            assert(follows_the_rules(w, job, p.op));
        } else if p.op.reason is AlreadyDone {
            assert(follows_the_rules(w, job, p.op));
        } else {
            let t = target_of(w, job.opts, st.reserved, path);
            assert(p.op.dest == Some(t.dest));
            assert(follows_the_rules(w, job, p.op));
        }
    }
}

proof fn lemma_twin(
    c: Contents,
    root: Seq<char>,
    twins: Seq<TwinView>,
    abs: Seq<char>,
    size: u64,
    from: int,
)
    requires
        0 <= from,
    ensures
        first_twin(c, root, twins, abs, size, from) matches Some(t) ==> from <= t < twins.len()
            && is_twin(c, root, twins[t], abs, size),
    decreases twins.len() - from,
{
    if from < twins.len() {
        lemma_twin(c, root, twins, abs, size, from + 1);
    }
}

proof fn lemma_same(c: Contents, abs: Seq<char>, paths: Seq<Seq<char>>, size: u64, from: int)
    requires
        0 <= from,
    ensures
        match first_same(c, abs, paths, size, from) {
            Some(t) => from <= t < paths.len() && identical(c, abs, paths[t], size as nat),
            None => forall|t: int|
                from <= t < paths.len() ==> !identical(c, abs, #[trigger] paths[t], size as nat),
        },
    decreases paths.len() - from,
{
    if from < paths.len() {
        lemma_same(c, abs, paths, size, from + 1);
    }
}

/// The rules of the outcomes:
/// - a copy or a move goes to a path that does not exist,
/// - an overwrite replaces a path that does exist, and only where overwriting was
///   asked for,
/// - a file that exists under the wanted name is left alone only where that was
///   asked for,
/// - a duplicate is skipped, and the file that it duplicates holds identical
///   bytes,
/// - a file that the journal knows is skipped, with the destination that the
///   journal has.
pub open spec fn follows_the_rules(w: World, job: Job, op: Op) -> bool {
    let abs = under(job.opts.source@, op.source);
    match op.reason {
        Reason::Planned | Reason::Renamed => {
            &&& op.action == copy_or_move(job.opts.mode)
            &&& op.dest matches Some(d) && !(w.exists)(under(job.opts.dest@, d))
            &&& op.duplicate_of is None
        },
        Reason::ExistingFile => {
            &&& op.dest matches Some(d) && (w.exists)(under(job.opts.dest@, d))
            &&& op.duplicate_of is None
            &&& match job.opts.on_conflict {
                OnConflict::Overwrite => op.action == Action::Overwrite,
                OnConflict::Skip => op.action == Action::Skip,
                OnConflict::Rename => false,
            }
        },
        Reason::DuplicateOfSource => {
            &&& op.action == Action::Skip
            &&& job.opts.dedup == DedupMode::SizeHash
            &&& op.duplicate_of matches Some(other) && identical(
                w.contents,
                abs,
                under(job.opts.source@, other),
                op.bytes as nat,
            )
        },
        Reason::DuplicateOfDestination => {
            &&& op.action == Action::Skip
            &&& job.opts.dedup == DedupMode::SizeHash
            &&& op.duplicate_of is Some
            &&& op.duplicate_of == op.dest
            &&& exists|t: int|
                0 <= t < of_size(job.index, op.bytes).len() && op.dest == Some(
                    relative_to(job.opts.dest@, of_size(job.index, op.bytes)[t]),
                ) && identical(
                    w.contents,
                    abs,
                    #[trigger] of_size(job.index, op.bytes)[t],
                    op.bytes as nat,
                )
        },
        Reason::AlreadyDone => {
            &&& op.action == Action::Skip
            &&& job.done.dom().contains(op.source)
            &&& op.dest == Some(job.done[op.source])
            &&& op.duplicate_of is None
        },
    }
}

/// Every operation of a plan follows the rules of its outcome. In particular
/// nothing that exists is replaced unless overwriting was asked for.
pub proof fn plans_follow_the_rules(w: World, job: Job, n: int)
    requires
        0 <= n <= job.photos.len(),
        has_room(w, job),
    ensures
        forall|k: int|
            0 <= k < progress(w, job, n).ops.len() ==> follows_the_rules(
                w,
                job,
                #[trigger] progress(w, job, n).ops[k],
            ),
    decreases n,
{
    if n > 0 {
        plans_follow_the_rules(w, job, n - 1);
        let before = progress(w, job, n - 1);
        if let Some(dir) = dir_of_photo(w, job, n - 1) {
            lemma_photo(w, job, n - 1, dir, before.state);
            assert(!stuck_at(w, job, n - 1));
            let ops = progress(w, job, n).ops;
            assert forall|k: int| 0 <= k < ops.len() implies follows_the_rules(
                w,
                job,
                #[trigger] ops[k],
            ) by {
                if k < before.ops.len() {
                    assert(ops[k] == before.ops[k]);
                }
            }
        }
    }
}

/// The destinations of a plan that are to be written are reserved.
proof fn lemma_reserved(w: World, job: Job, n: int)
    requires
        0 <= n <= job.photos.len(),
    ensures
        forall|k: int|
            0 <= k < progress(w, job, n).ops.len() && (
            #[trigger] progress(w, job, n).ops[k]).action.pending() ==> progress(w, job, n).ops[k].dest
                is Some && progress(w, job, n).state.reserved.contains(
                path_key(progress(w, job, n).ops[k].dest.unwrap()),
            ),
    decreases n,
{
    if n > 0 {
        lemma_reserved(w, job, n - 1);
        let before = progress(w, job, n - 1);
        if let Some(dir) = dir_of_photo(w, job, n - 1) {
            lemma_photo(w, job, n - 1, dir, before.state);
            let after = progress(w, job, n);
            assert forall|k: int|
                0 <= k < after.ops.len() && (#[trigger] after.ops[k]).action.pending() implies
                after.ops[k].dest is Some && after.state.reserved.contains(
                path_key(after.ops[k].dest.unwrap()),
            ) by {
                if k < before.ops.len() {
                    assert(after.ops[k] == before.ops[k]);
                }
            }
        }
    }
}

/// No two operations of a plan write to one destination, not even to two that
/// differ only in case or in the kind of slash.
pub proof fn destinations_are_distinct(w: World, job: Job, n: int)
    requires
        0 <= n <= job.photos.len(),
        has_room(w, job),
    ensures
        forall|a: int, b: int|
            0 <= a < b < progress(w, job, n).ops.len() && (
            #[trigger] progress(w, job, n).ops[a]).action.pending() && (
            #[trigger] progress(w, job, n).ops[b]).action.pending() ==> path_key(
                progress(w, job, n).ops[a].dest.unwrap(),
            ) != path_key(progress(w, job, n).ops[b].dest.unwrap()),
    decreases n,
{
    if n > 0 {
        destinations_are_distinct(w, job, n - 1);
        lemma_reserved(w, job, n - 1);
        let before = progress(w, job, n - 1);
        if let Some(dir) = dir_of_photo(w, job, n - 1) {
            lemma_photo(w, job, n - 1, dir, before.state);
            assert(!stuck_at(w, job, n - 1));
            let ops = progress(w, job, n).ops;
            assert forall|a: int, b: int|
                0 <= a < b < ops.len() && (#[trigger] ops[a]).action.pending() && (
                #[trigger] ops[b]).action.pending() implies path_key(ops[a].dest.unwrap())
                != path_key(ops[b].dest.unwrap()) by {
                assert(ops[a] == before.ops[a]);
                if b < before.ops.len() {
                    assert(ops[b] == before.ops[b]);
                }
            }
        }
    }
}

/// The photos that are worth moving among the first `n`, in source order.
pub open spec fn shipped(job: Job, n: int) -> Seq<int>
    decreases n,
{
    if n <= 0 {
        seq![]
    } else if ships(job, group_at(job, n - 1)) {
        shipped(job, n - 1).push(n - 1)
    } else {
        shipped(job, n - 1)
    }
}

/// Every photo that is worth moving has exactly one operation, in source order,
/// and no other photo has any.
pub proof fn every_photo_is_planned_once(w: World, job: Job, n: int)
    requires
        0 <= n <= job.photos.len(),
    ensures
        progress(w, job, n).ops.len() == shipped(job, n).len(),
        forall|k: int|
            0 <= k < shipped(job, n).len() ==> 0 <= shipped(job, n)[k] < n && (
            #[trigger] progress(w, job, n).ops[k]).source == job.photos[shipped(
                job,
                n,
            )[k]].rel_path@ && progress(w, job, n).ops[k].bytes == job.photos[shipped(
                job,
                n,
            )[k]].size,
    decreases n,
{
    if n > 0 {
        every_photo_is_planned_once(w, job, n - 1);
        let before = progress(w, job, n - 1);
        if let Some(dir) = dir_of_photo(w, job, n - 1) {
            lemma_photo(w, job, n - 1, dir, before.state);
            let ops = progress(w, job, n).ops;
            let list = shipped(job, n);
            assert forall|k: int| 0 <= k < list.len() implies 0 <= list[k] < n && (
            #[trigger] ops[k]).source == job.photos[list[k]].rel_path@ && ops[k].bytes
                == job.photos[list[k]].size by {
                if k < before.ops.len() {
                    assert(ops[k] == before.ops[k]);
                    assert(list[k] == shipped(job, n - 1)[k]);
                }
            }
        }
    }
}

proof fn lemma_decimal_has_no_slash(n: nat)
    ensures
        !decimal(n).contains('/'),
    decreases n,
{
    if n >= 10 {
        lemma_decimal_has_no_slash(n / 10);
        let d = decimal(n);
        assert forall|i: int| 0 <= i < d.len() implies d[i] != '/' by {
            if i < d.len() - 1 {
                assert(decimal(n / 10)[i] == d[i]);
            }
        }
    }
}

/// A number changes the name of a file and not its directory.
proof fn lemma_suffixed_stays(dir: Seq<char>, name: Seq<char>, n: nat)
    requires
        !name.contains('/'),
    ensures
        parent_of(suffixed(under(dir, name), n)) == dir,
{
    name_and_directory_come_apart(dir, name);
    lemma_decimal_has_no_slash(n);
    lemma_last_index(name, '.');
    let digits = decimal(n);
    let stem = stem_of(name);
    let numbered = stem + seq!['_'] + digits;
    assert forall|i: int| 0 <= i < numbered.len() implies numbered[i] != '/' by {
        if i < stem.len() {
            assert(numbered[i] == name[i]);
        } else if i > stem.len() {
            assert(numbered[i] == digits[i - stem.len() - 1]);
        }
    }
    let whole = match extension_in(name) {
        Some(ext) => numbered + seq!['.'] + ext,
        None => numbered,
    };
    assert forall|i: int| 0 <= i < whole.len() implies whole[i] != '/' by {
        if i < numbered.len() {
            assert(whole[i] == numbered[i]);
        } else if i > numbered.len() {
            let ext = extension_in(name).unwrap();
            assert(whole[i] == ext[i - numbered.len() - 1]);
            assert(name.contains(ext[i - numbered.len() - 1]));
        }
    }
    name_and_directory_come_apart(dir, whole);
}

/// Whether an operation has a destination of its own, and not that of another
/// file.
pub open spec fn has_own_destination(op: Op) -> bool {
    op.reason is Planned || op.reason is Renamed || op.reason is ExistingFile
}

pub open spec fn lands_in(op: Op, dir: Option<Seq<char>>) -> bool {
    op.dest matches Some(dest) && dir == Some(parent_of(dest))
}

/// A file goes to the directory of its photo, whatever its name becomes there.
pub proof fn files_go_to_their_directories(w: World, job: Job, n: int)
    requires
        0 <= n <= job.photos.len(),
    ensures
        progress(w, job, n).ops.len() == shipped(job, n).len(),
        forall|k: int|
            0 <= k < shipped(job, n).len() && has_own_destination(
                #[trigger] progress(w, job, n).ops[k],
            ) ==> lands_in(
                progress(w, job, n).ops[k],
                dir_of_photo(w, job, shipped(job, n)[k]),
            ),
    decreases n,
{
    every_photo_is_planned_once(w, job, n);
    if n > 0 {
        files_go_to_their_directories(w, job, n - 1);
        let before = progress(w, job, n - 1);
        if let Some(dir) = dir_of_photo(w, job, n - 1) {
            let photo = job.photos[n - 1];
            let name = file_name_of(file_name_in(photo.rel_path@));
            file_name_is_clean(file_name_in(photo.rel_path@));
            assert forall|i: int| 0 <= i < name.len() implies name[i] != '/' by {
                assert(!is_illegal(name[i]));
            }
            name_and_directory_come_apart(dir, name);
            lemma_suffixed_stays(
                dir,
                name,
                first_free(w, job.opts.dest@, before.state.reserved, under(dir, name)),
            );
            let ops = progress(w, job, n).ops;
            let list = shipped(job, n);
            assert forall|k: int|
                0 <= k < list.len() && has_own_destination(#[trigger] ops[k]) implies lands_in(
                ops[k],
                dir_of_photo(w, job, list[k]),
            ) by {
                if k < before.ops.len() {
                    assert(ops[k] == before.ops[k]);
                    assert(list[k] == shipped(job, n - 1)[k]);
                }
            }
        }
    }
}

/// The directory of a photo lies inside the destination: every name on the way to
/// it is clean, so that none is `..` and none is empty.
pub proof fn directories_stay_inside(w: World, job: Job, i: int)
    ensures
        dir_of_photo(w, job, i) matches Some(dir) ==> forall|k: int|
            0 <= k < split_any(dir, seq!['/']).len() ==> is_clean(
                #[trigger] split_any(dir, seq!['/'])[k],
            ),
{
    let g = group_at(job, i);
    let segs = segments_for(job.opts, level_for(job, g));
    rendered_parts_are_clean(segs, subject_for(w, job, g));
    rendered_path_splits(segs, subject_for(w, job, g));
}

/// Companions go to one directory, or none of them is moved.
pub proof fn companions_land_together(w: World, job: Job, i: int, j: int)
    requires
        job.photos.len() <= usize::MAX,
        is_grouping(job.photos, job.groups),
        0 <= i < job.photos.len(),
        0 <= j < job.photos.len(),
        key_at(job.photos, i) == key_at(job.photos, j),
    ensures
        dir_of_photo(w, job, i) == dir_of_photo(w, job, j),
{
    assert(is_grouped(job.groups, i));
    assert(is_grouped(job.groups, j));
    companions_share_a_group(job.photos, job.groups, group_at(job, i), group_at(job, j), i, j);
}

/// The files of companions go to one directory.
pub proof fn companion_files_share_a_directory(w: World, job: Job, n: int, a: int, b: int)
    requires
        0 <= n <= job.photos.len() <= usize::MAX,
        is_grouping(job.photos, job.groups),
        0 <= a < shipped(job, n).len(),
        0 <= b < shipped(job, n).len(),
        key_at(job.photos, shipped(job, n)[a]) == key_at(job.photos, shipped(job, n)[b]),
        has_own_destination(progress(w, job, n).ops[a]),
        has_own_destination(progress(w, job, n).ops[b]),
    ensures
        progress(w, job, n).ops[a].dest is Some,
        progress(w, job, n).ops[b].dest is Some,
        parent_of(progress(w, job, n).ops[a].dest.unwrap()) == parent_of(
            progress(w, job, n).ops[b].dest.unwrap(),
        ),
{
    every_photo_is_planned_once(w, job, n);
    files_go_to_their_directories(w, job, n);
    let (p, q) = (progress(w, job, n).ops[a], progress(w, job, n).ops[b]);
    let (i, j) = (shipped(job, n)[a], shipped(job, n)[b]);
    companions_land_together(w, job, i, j);
    assert(lands_in(p, dir_of_photo(w, job, i)));
    assert(lands_in(q, dir_of_photo(w, job, j)));
}

/// Whether the bytes of a photo are already at the destination.
pub open spec fn is_at_destination(w: World, job: Job, i: int) -> bool {
    let photo = job.photos[i];
    let paths = of_size(job.index, photo.size);
    exists|t: int|
        0 <= t < paths.len() && identical(
            w.contents,
            under(job.opts.source@, photo.rel_path@),
            #[trigger] paths[t],
            photo.size as nat,
        )
}

/// A rerun is a no-op: where the bytes of every photo that is worth moving are at the
/// destination, or the journal knows the photo, nothing is left to write.
pub proof fn reruns_write_nothing(w: World, job: Job, n: int)
    requires
        0 <= n <= job.photos.len(),
        forall|i: int|
            0 <= i < job.photos.len() && ships(job, group_at(job, i)) ==> job.done.dom().contains(
                (#[trigger] job.photos[i]).rel_path@,
            ) || job.opts.dedup == DedupMode::SizeHash && is_at_destination(w, job, i),
    ensures
        forall|k: int|
            0 <= k < progress(w, job, n).ops.len() ==> !(
            #[trigger] progress(w, job, n).ops[k]).action.pending(),
    decreases n,
{
    if n > 0 {
        reruns_write_nothing(w, job, n - 1);
        let before = progress(w, job, n - 1);
        if let Some(dir) = dir_of_photo(w, job, n - 1) {
            let photo = job.photos[n - 1];
            lemma_same(
                w.contents,
                under(job.opts.source@, photo.rel_path@),
                of_size(job.index, photo.size),
                photo.size,
                0,
            );
            let ops = progress(w, job, n).ops;
            assert forall|k: int| 0 <= k < ops.len() implies !(
            #[trigger] ops[k]).action.pending() by {
                if k < before.ops.len() {
                    assert(ops[k] == before.ops[k]);
                }
            }
        }
    }
}

/// Whether a file holds the same in two worlds.
pub open spec fn is_unchanged(w: World, later: World, path: Seq<char>) -> bool {
    &&& (later.contents.full)(path) == (w.contents.full)(path)
    &&& forall|size: nat| #[trigger]
        (later.contents.edge)(path, size) == (w.contents.edge)(path, size)
}

/// Whether the plan for a job has been carried out: the sources and what was at the
/// destination are unchanged, and every file that was to be written stands at its
/// destination with the bytes of its source. `index` is what is at the destination now.
pub open spec fn is_carried_out(
    w: World,
    job: Job,
    later: World,
    index: Seq<(u64, Seq<char>)>,
) -> bool {
    &&& forall|i: int|
        0 <= i < job.photos.len() ==> is_unchanged(
            w,
            later,
            under(job.opts.source@, (#[trigger] job.photos[i]).rel_path@),
        )
    &&& forall|size: u64, t: int|
        0 <= t < of_size(job.index, size).len() ==> of_size(index, size).contains(
            #[trigger] of_size(job.index, size)[t],
        ) && is_unchanged(w, later, of_size(job.index, size)[t])
    &&& forall|k: int|
        0 <= k < plan_of(w, job).len() && (
        #[trigger] plan_of(w, job)[k]).action.pending() ==> has_arrived(
            later,
            job.opts,
            index,
            plan_of(w, job)[k],
        )
}

/// Whether a file stands at its destination with the bytes of its source.
pub open spec fn has_arrived(
    w: World,
    opts: Options,
    index: Seq<(u64, Seq<char>)>,
    op: Op,
) -> bool {
    op.dest matches Some(dest) && of_size(index, op.bytes).contains(under(opts.dest@, dest))
        && identical(
        w.contents,
        under(opts.source@, op.source),
        under(opts.dest@, dest),
        op.bytes as nat,
    )
}

/// Without a journal, every shipped file is one that is to be written.
proof fn lemma_twins_are_pending(w: World, job: Job, n: int)
    requires
        0 <= n <= job.photos.len(),
        job.done.dom() == Set::<Seq<char>>::empty(),
    ensures
        forall|t: int|
            0 <= t < progress(w, job, n).state.twins.len() ==> is_written(
                progress(w, job, n).ops,
                #[trigger] progress(w, job, n).state.twins[t],
            ),
    decreases n,
{
    if n > 0 {
        lemma_twins_are_pending(w, job, n - 1);
        let before = progress(w, job, n - 1);
        let after = progress(w, job, n);
        if let Some(dir) = dir_of_photo(w, job, n - 1) {
            assert forall|t: int| 0 <= t < after.state.twins.len() implies is_written(
                after.ops,
                #[trigger] after.state.twins[t],
            ) by {
                if t < before.state.twins.len() {
                    assert(after.state.twins[t] == before.state.twins[t]);
                    let twin = before.state.twins[t];
                    let j = choose|j: int|
                        0 <= j < before.ops.len() && (#[trigger] before.ops[j]).source
                            == twin.source && before.ops[j].bytes == twin.size
                            && before.ops[j].action.pending();
                    assert(after.ops[j] == before.ops[j]);
                } else {
                    assert(after.ops[before.ops.len() as int].source == after.state.twins[t].source);
                }
            }
        }
    }
}

spec fn is_written(ops: Seq<Op>, twin: TwinView) -> bool {
    exists|j: int|
        0 <= j < ops.len() && (#[trigger] ops[j]).source == twin.source && ops[j].bytes == twin.size
            && ops[j].action.pending()
}

proof fn lemma_is_there(w: World, job: Job, i: int, path: Seq<char>)
    requires
        of_size(job.index, job.photos[i].size).contains(path),
        identical(
            w.contents,
            under(job.opts.source@, job.photos[i].rel_path@),
            path,
            job.photos[i].size as nat,
        ),
    ensures
        is_at_destination(w, job, i),
{
    let paths = of_size(job.index, job.photos[i].size);
    let t = choose|t: int| 0 <= t < paths.len() && paths[t] == path;
    assert(paths[t] == path);
}

/// Once a plan has been carried out, the bytes of every photo that is worth moving are
/// at the destination.
proof fn lemma_arrived(w: World, job: Job, later: World, index: Seq<(u64, Seq<char>)>, i: int)
    requires
        0 <= i < job.photos.len(),
        ships(job, group_at(job, i)),
        job.done.dom() == Set::<Seq<char>>::empty(),
        job.opts.dedup == DedupMode::SizeHash,
        job.opts.on_conflict == OnConflict::Rename,
        is_carried_out(w, job, later, index),
    ensures
        is_at_destination(later, (Job { index, ..job }), i),
{
    let again = Job { index, ..job };
    let n = job.photos.len() as int;
    let photo = job.photos[i];
    let abs = under(job.opts.source@, photo.rel_path@);
    let size = photo.size;
    let before = progress(w, job, i);
    let dir = dir_of_photo(w, job, i).unwrap();
    let p = plan_photo(w, job.opts, job.done, job.index, photo, dir, before.state);
    lemma_twin(w.contents, job.opts.source@, before.state.twins, abs, size, 0);
    lemma_same(w.contents, abs, of_size(job.index, size), size, 0);
    assert(progress(w, job, i + 1).ops == before.ops.push(p.op));
    plans_grow(w, job, i + 1, n);
    plans_grow(w, job, i, n);
    let all = plan_of(w, job);
    let place = before.ops.len() as int;
    assert(all[place] == progress(w, job, i + 1).ops[place]);
    assert(is_unchanged(w, later, abs));
    if p.op.action.pending() {
        assert(has_arrived(later, job.opts, index, all[place]));
        let there = under(job.opts.dest@, p.op.dest.unwrap());
        lemma_is_there(later, again, i, there);
    } else if p.op.reason is DuplicateOfSource {
        lemma_twins_are_pending(w, job, i);
        let at = first_twin(w.contents, job.opts.source@, before.state.twins, abs, size, 0).unwrap();
        let twin = before.state.twins[at];
        assert(is_twin(w.contents, job.opts.source@, twin, abs, size));
        assert(is_written(before.ops, twin));
        let j = choose|j: int|
            0 <= j < before.ops.len() && (#[trigger] before.ops[j]).source == twin.source
                && before.ops[j].bytes == twin.size && before.ops[j].action.pending();
        assert(all[j] == before.ops[j]);
        every_photo_is_planned_once(w, job, i);
        let m = shipped(job, i)[j];
        assert(before.ops[j].source == job.photos[m].rel_path@);
        let other = under(job.opts.source@, job.photos[m].rel_path@);
        assert(is_unchanged(w, later, other));
        assert(has_arrived(later, job.opts, index, all[j]));
        let there = under(job.opts.dest@, all[j].dest.unwrap());
        assert((later.contents.edge)(abs, size as nat) == (w.contents.edge)(abs, size as nat));
        assert((later.contents.edge)(other, size as nat) == (w.contents.edge)(other, size as nat));
        lemma_is_there(later, again, i, there);
    } else {
        let s = first_same(w.contents, abs, of_size(job.index, size), size, 0).unwrap();
        let path = of_size(job.index, size)[s];
        assert(of_size(index, size).contains(path) && is_unchanged(w, later, path));
        assert((later.contents.edge)(abs, size as nat) == (w.contents.edge)(abs, size as nat));
        assert((later.contents.edge)(path, size as nat) == (w.contents.edge)(path, size as nat));
        lemma_is_there(later, again, i, path);
    }
}

/// What is worth moving does not depend on what is at the destination.
proof fn lemma_same_ships(job: Job, index: Seq<(u64, Seq<char>)>, i: int)
    requires
        job.photos.len() <= usize::MAX,
        is_grouping(job.photos, job.groups),
        0 <= i < job.photos.len(),
    ensures
        group_at((Job { index, ..job }), i) == group_at(job, i),
        ships((Job { index, ..job }), group_at(job, i)) == ships(job, group_at(job, i)),
{
    let other = Job { index, ..job };
    assert(is_grouped(job.groups, i));
    companions_share_a_group(job.photos, job.groups, group_at(job, i), group_at(other, i), i, i);
}

/// Where nothing is shipped but everything is at the destination, everything is a
/// duplicate.
proof fn lemma_all_duplicates(w: World, job: Job, n: int)
    requires
        0 <= n <= job.photos.len(),
        job.done.dom() == Set::<Seq<char>>::empty(),
        job.opts.dedup == DedupMode::SizeHash,
        forall|i: int|
            0 <= i < job.photos.len() && ships(job, group_at(job, i)) ==> is_at_destination(
                w,
                job,
                i,
            ),
    ensures
        ({
            let p = progress(w, job, n);
            &&& p.state.twins.len() == 0
            &&& p.ops.len() == shipped(job, n).len()
            &&& forall|k: int|
                0 <= k < p.ops.len() ==> (#[trigger] p.ops[k]).reason is DuplicateOfDestination
                    && !p.ops[k].action.pending()
        }),
    decreases n,
{
    if n > 0 {
        lemma_all_duplicates(w, job, n - 1);
        let before = progress(w, job, n - 1);
        if let Some(dir) = dir_of_photo(w, job, n - 1) {
            let photo = job.photos[n - 1];
            assert(is_at_destination(w, job, n - 1));
            lemma_same(
                w.contents,
                under(job.opts.source@, photo.rel_path@),
                of_size(job.index, photo.size),
                photo.size,
                0,
            );
            let ops = progress(w, job, n).ops;
            assert forall|k: int| 0 <= k < ops.len() implies (
            #[trigger] ops[k]).reason is DuplicateOfDestination && !ops[k].action.pending() by {
                if k < before.ops.len() {
                    assert(ops[k] == before.ops[k]);
                }
            }
        }
    }
}

/// The numbers of a plan that is made of files to be written and duplicates.
proof fn lemma_tally_splits(ops: Seq<Op>)
    requires
        forall|k: int|
            0 <= k < ops.len() ==> is_pending_or_duplicate(#[trigger] ops[k]),
    ensures
        tally(ops).pending + tally(ops).duplicates == ops.len(),
        (forall|k: int|
            0 <= k < ops.len() ==> (#[trigger] ops[k]).reason is DuplicateOfDestination) ==> tally(
            ops,
        ).pending == 0 && tally(ops).renamed == 0,
    decreases ops.len(),
{
    if ops.len() > 0 {
        let rest = ops.drop_last();
        assert forall|k: int| 0 <= k < rest.len() implies is_pending_or_duplicate(
            #[trigger] rest[k],
        ) by {
            assert(rest[k] == ops[k]);
        }
        lemma_tally_splits(rest);
        assert(is_pending_or_duplicate(ops[ops.len() - 1]));
        if forall|k: int| 0 <= k < ops.len() ==> (#[trigger] ops[k]).reason is DuplicateOfDestination {
            assert forall|k: int| 0 <= k < rest.len() implies (
            #[trigger] rest[k]).reason is DuplicateOfDestination by {
                assert(rest[k] == ops[k]);
            }
            assert(ops[ops.len() - 1].reason is DuplicateOfDestination);
        }
    }
}

spec fn is_pending_or_duplicate(op: Op) -> bool {
    if op.reason is DuplicateOfSource || op.reason is DuplicateOfDestination {
        !op.action.pending()
    } else {
        op.action.pending()
    }
}

/// Without a journal, and where a name that is taken gets a number, every operation
/// either writes or is a duplicate.
proof fn lemma_pending_or_duplicate(w: World, job: Job, n: int)
    requires
        0 <= n <= job.photos.len(),
        job.done.dom() == Set::<Seq<char>>::empty(),
        job.opts.on_conflict == OnConflict::Rename,
    ensures
        forall|k: int|
            0 <= k < progress(w, job, n).ops.len() ==> is_pending_or_duplicate(
                #[trigger] progress(w, job, n).ops[k],
            ),
    decreases n,
{
    if n > 0 {
        lemma_pending_or_duplicate(w, job, n - 1);
        let before = progress(w, job, n - 1);
        if let Some(dir) = dir_of_photo(w, job, n - 1) {
            let ops = progress(w, job, n).ops;
            assert forall|k: int| 0 <= k < ops.len() implies is_pending_or_duplicate(
                #[trigger] ops[k],
            ) by {
                if k < before.ops.len() {
                    assert(ops[k] == before.ops[k]);
                }
            }
        }
    }
}

/// Applying a plan twice is a no-op: once it has been carried out, planning the same
/// photos again writes nothing and renames nothing, and finds a duplicate for every
/// file that the first plan wrote or found to be one.
pub proof fn second_plans_write_nothing(
    w: World,
    job: Job,
    later: World,
    index: Seq<(u64, Seq<char>)>,
)
    requires
        job.photos.len() <= usize::MAX,
        is_grouping(job.photos, job.groups),
        job.done.dom() == Set::<Seq<char>>::empty(),
        job.opts.dedup == DedupMode::SizeHash,
        job.opts.on_conflict == OnConflict::Rename,
        is_carried_out(w, job, later, index),
    ensures
        ({
            let first = plan_of(w, job);
            let second = plan_of(later, (Job { index, ..job }));
            &&& forall|k: int|
                0 <= k < second.len() ==> !(#[trigger] second[k]).action.pending() && !(
                second[k].reason is Renamed)
            &&& tally(second).pending == 0
            &&& tally(second).renamed == 0
            &&& tally(second).duplicates == tally(first).pending + tally(first).duplicates
        }),
{
    let n = job.photos.len() as int;
    let again = Job { index, ..job };
    assert forall|i: int| 0 <= i < again.photos.len() && ships(again, group_at(again, i)) implies
        is_at_destination(later, again, i) by {
        lemma_same_ships(job, index, i);
        lemma_arrived(w, job, later, index, i);
    }
    lemma_all_duplicates(later, again, n);
    lemma_pending_or_duplicate(w, job, n);
    lemma_pending_or_duplicate(later, again, n);
    lemma_tally_splits(plan_of(w, job));
    lemma_tally_splits(plan_of(later, again));
    every_photo_is_planned_once(w, job, n);
    lemma_same_shipped(job, index, n);
}

proof fn lemma_same_shipped(job: Job, index: Seq<(u64, Seq<char>)>, n: int)
    requires
        job.photos.len() <= usize::MAX,
        is_grouping(job.photos, job.groups),
        0 <= n <= job.photos.len(),
    ensures
        shipped((Job { index, ..job }), n) == shipped(job, n),
    decreases n,
{
    if n > 0 {
        lemma_same_shipped(job, index, n - 1);
        lemma_same_ships(job, index, n - 1);
    }
}

/// Whether a shipped file is one of the operations: one that is to be written, or
/// one that the journal knows.
pub open spec fn is_shipped(ops: Seq<Op>, source: Seq<char>, dest: Option<Seq<char>>) -> bool {
    exists|j: int|
        0 <= j < ops.len() && (#[trigger] ops[j]).source == source && ops[j].dest == dest && (
        ops[j].action.pending() || ops[j].reason is AlreadyDone)
}

proof fn lemma_shipped_grows(
    ops: Seq<Op>,
    next: Op,
    source: Seq<char>,
    dest: Option<Seq<char>>,
)
    requires
        is_shipped(ops, source, dest),
    ensures
        is_shipped(ops.push(next), source, dest),
{
    let j = choose|j: int|
        0 <= j < ops.len() && (#[trigger] ops[j]).source == source && ops[j].dest == dest && (
        ops[j].action.pending() || ops[j].reason is AlreadyDone);
    assert(ops.push(next)[j] == ops[j]);
}

/// A duplicate in the source set points at a file of the same plan that is
/// shipped, and at where that file goes.
pub proof fn duplicates_point_at_shipped_files(w: World, job: Job, n: int)
    requires
        0 <= n <= job.photos.len(),
    ensures
        forall|t: int|
            0 <= t < progress(w, job, n).state.twins.len() ==> is_shipped(
                progress(w, job, n).ops,
                (#[trigger] progress(w, job, n).state.twins[t]).source,
                progress(w, job, n).state.twins[t].dest,
            ),
        forall|k: int|
            0 <= k < progress(w, job, n).ops.len() && (
            #[trigger] progress(w, job, n).ops[k]).reason is DuplicateOfSource ==> progress(
                w,
                job,
                n,
            ).ops[k].duplicate_of is Some && is_shipped(
                progress(w, job, n).ops,
                progress(w, job, n).ops[k].duplicate_of.unwrap(),
                progress(w, job, n).ops[k].dest,
            ),
    decreases n,
{
    if n > 0 {
        duplicates_point_at_shipped_files(w, job, n - 1);
        let before = progress(w, job, n - 1);
        if let Some(dir) = dir_of_photo(w, job, n - 1) {
            let photo = job.photos[n - 1];
            let abs = under(job.opts.source@, photo.rel_path@);
            lemma_twin(w.contents, job.opts.source@, before.state.twins, abs, photo.size, 0);
            let p = plan_photo(w, job.opts, job.done, job.index, photo, dir, before.state);
            let after = progress(w, job, n);
            assert(after.ops == before.ops.push(p.op));
            assert forall|t: int| 0 <= t < after.state.twins.len() implies is_shipped(
                after.ops,
                (#[trigger] after.state.twins[t]).source,
                after.state.twins[t].dest,
            ) by {
                if t < before.state.twins.len() {
                    assert(after.state.twins[t] == before.state.twins[t]);
                    lemma_shipped_grows(
                        before.ops,
                        p.op,
                        before.state.twins[t].source,
                        before.state.twins[t].dest,
                    );
                } else {
                    assert(after.ops[before.ops.len() as int] == p.op);
                }
            }
            assert forall|k: int|
                0 <= k < after.ops.len() && (
                #[trigger] after.ops[k]).reason is DuplicateOfSource implies
                after.ops[k].duplicate_of is Some && is_shipped(
                after.ops,
                after.ops[k].duplicate_of.unwrap(),
                after.ops[k].dest,
            ) by {
                if k < before.ops.len() {
                    assert(after.ops[k] == before.ops[k]);
                    lemma_shipped_grows(
                        before.ops,
                        p.op,
                        before.ops[k].duplicate_of.unwrap(),
                        before.ops[k].dest,
                    );
                } else {
                    let t = first_twin(
                        w.contents,
                        job.opts.source@,
                        before.state.twins,
                        abs,
                        photo.size,
                        0,
                    ).unwrap();
                    lemma_shipped_grows(
                        before.ops,
                        p.op,
                        before.state.twins[t].source,
                        before.state.twins[t].dest,
                    );
                }
            }
        }
    }
}

/// A file that the journal knows is never written again.
pub proof fn resumed_files_are_skipped(w: World, job: Job, n: int)
    requires
        0 <= n <= job.photos.len(),
    ensures
        forall|k: int|
            0 <= k < progress(w, job, n).ops.len() && job.done.dom().contains(
                (#[trigger] progress(w, job, n).ops[k]).source,
            ) ==> progress(w, job, n).ops[k].reason is AlreadyDone
                && !progress(w, job, n).ops[k].action.pending(),
    decreases n,
{
    if n > 0 {
        resumed_files_are_skipped(w, job, n - 1);
        let before = progress(w, job, n - 1);
        if let Some(dir) = dir_of_photo(w, job, n - 1) {
            let ops = progress(w, job, n).ops;
            lemma_photo(w, job, n - 1, dir, before.state);
            assert forall|k: int|
                0 <= k < ops.len() && job.done.dom().contains((#[trigger] ops[k]).source) implies
                ops[k].reason is AlreadyDone && !ops[k].action.pending() by {
                if k < before.ops.len() {
                    assert(ops[k] == before.ops[k]);
                }
            }
        }
    }
}

/// Whether a file of the source set holds the same bytes as an earlier one.
pub open spec fn repeats(w: World, job: Job, a: Op, b: Op) -> bool {
    a.bytes == b.bytes && identical(
        w.contents,
        under(job.opts.source@, b.source),
        under(job.opts.source@, a.source),
        b.bytes as nat,
    )
}

/// Every file that is written, or that the journal knows, is remembered.
proof fn lemma_remembered(w: World, job: Job, n: int, k: int)
    requires
        0 <= n <= job.photos.len(),
        job.opts.dedup == DedupMode::SizeHash,
        0 <= k < progress(w, job, n).ops.len(),
        ({
            let op = progress(w, job, n).ops[k];
            op.action.pending() || op.reason is AlreadyDone
        }),
    ensures
        ({
            let p = progress(w, job, n);
            exists|t: int|
                0 <= t < p.state.twins.len() && (#[trigger] p.state.twins[t]).source
                    == p.ops[k].source && p.state.twins[t].size == p.ops[k].bytes
        }),
    decreases n,
{
    let after = progress(w, job, n);
    let before = progress(w, job, n - 1);
    if let Some(dir) = dir_of_photo(w, job, n - 1) {
        let photo = job.photos[n - 1];
        let p = plan_photo(w, job.opts, job.done, job.index, photo, dir, before.state);
        if k < before.ops.len() {
            assert(after.ops[k] == before.ops[k]);
            lemma_remembered(w, job, n - 1, k);
            let t = choose|t: int|
                0 <= t < before.state.twins.len() && (#[trigger] before.state.twins[t]).source
                    == before.ops[k].source && before.state.twins[t].size == before.ops[k].bytes;
            assert(after.state.twins[t] == before.state.twins[t]);
        } else {
            assert(after.ops[k] == p.op);
            let t = before.state.twins.len() as int;
            assert(after.state.twins[t].source == p.op.source);
        }
    } else {
        lemma_remembered(w, job, n - 1, k);
    }
}

/// No bytes are shipped twice: a file is written only if no earlier file that is
/// written, or that the journal knows, holds identical bytes, and if the
/// destination does not hold them either.
pub proof fn no_bytes_are_shipped_twice(w: World, job: Job, n: int)
    requires
        0 <= n <= job.photos.len(),
        job.opts.dedup == DedupMode::SizeHash,
    ensures
        forall|a: int, b: int|
            0 <= a < b < progress(w, job, n).ops.len() && (
            #[trigger] progress(w, job, n).ops[b]).action.pending() && ((
            #[trigger] progress(w, job, n).ops[a]).action.pending() || progress(w, job, n).ops[a].reason
                is AlreadyDone) ==> !repeats(
                w,
                job,
                progress(w, job, n).ops[a],
                progress(w, job, n).ops[b],
            ),
        forall|b: int, t: int|
            0 <= b < progress(w, job, n).ops.len() && (
            #[trigger] progress(w, job, n).ops[b]).action.pending() && 0 <= t < of_size(
                job.index,
                progress(w, job, n).ops[b].bytes,
            ).len() ==> !identical(
                w.contents,
                under(job.opts.source@, progress(w, job, n).ops[b].source),
                #[trigger] of_size(job.index, progress(w, job, n).ops[b].bytes)[t],
                progress(w, job, n).ops[b].bytes as nat,
            ),
    decreases n,
{
    if n > 0 {
        no_bytes_are_shipped_twice(w, job, n - 1);
        let before = progress(w, job, n - 1);
        if let Some(dir) = dir_of_photo(w, job, n - 1) {
            let photo = job.photos[n - 1];
            let abs = under(job.opts.source@, photo.rel_path@);
            let p = plan_photo(w, job.opts, job.done, job.index, photo, dir, before.state);
            let ops = progress(w, job, n).ops;
            let last = before.ops.len() as int;
            lemma_no_twin(w.contents, job.opts.source@, before.state.twins, abs, photo.size, 0);
            lemma_same(w.contents, abs, of_size(job.index, photo.size), photo.size, 0);
            assert(ops[last] == p.op);
            assert forall|a: int, b: int|
                0 <= a < b < ops.len() && (#[trigger] ops[b]).action.pending() && ((
                #[trigger] ops[a]).action.pending() || ops[a].reason is AlreadyDone) implies
                !repeats(w, job, ops[a], ops[b]) by {
                assert(ops[a] == before.ops[a]);
                if b < last {
                    assert(ops[b] == before.ops[b]);
                } else {
                    lemma_remembered(w, job, n - 1, a);
                    let t = choose|t: int|
                        0 <= t < before.state.twins.len() && (
                        #[trigger] before.state.twins[t]).source == ops[a].source
                            && before.state.twins[t].size == ops[a].bytes;
                    assert(!is_twin(
                        w.contents,
                        job.opts.source@,
                        before.state.twins[t],
                        abs,
                        photo.size,
                    ));
                }
            }
            assert forall|b: int, t: int|
                0 <= b < ops.len() && (#[trigger] ops[b]).action.pending() && 0 <= t < of_size(
                    job.index,
                    ops[b].bytes,
                ).len() implies !identical(
                w.contents,
                under(job.opts.source@, ops[b].source),
                #[trigger] of_size(job.index, ops[b].bytes)[t],
                ops[b].bytes as nat,
            ) by {
                if b < last {
                    assert(ops[b] == before.ops[b]);
                }
            }
        }
    }
}

proof fn lemma_no_twin(
    c: Contents,
    root: Seq<char>,
    twins: Seq<TwinView>,
    abs: Seq<char>,
    size: u64,
    from: int,
)
    requires
        0 <= from,
    ensures
        first_twin(c, root, twins, abs, size, from) is None ==> forall|t: int|
            from <= t < twins.len() ==> !is_twin(c, root, #[trigger] twins[t], abs, size),
    decreases twins.len() - from,
{
    if from < twins.len() {
        lemma_no_twin(c, root, twins, abs, size, from + 1);
    }
}

/// Two jobs with the same input: they differ in nothing that a plan may depend on,
/// and in particular not in whether they are dry runs.
pub open spec fn same_input(a: Job, b: Job) -> bool {
    &&& a.photos == b.photos
    &&& a.photos.len() <= usize::MAX
    &&& is_grouping(a.photos, a.groups)
    &&& is_grouping(b.photos, b.groups)
    &&& a.done == b.done
    &&& a.index == b.index
    &&& a.atlas == b.atlas
    &&& a.opts.source == b.opts.source
    &&& a.opts.dest == b.opts.dest
    &&& a.opts.group == b.opts.group
    &&& a.opts.location == b.opts.location
    &&& a.opts.template == b.opts.template
    &&& a.opts.mode == b.opts.mode
    &&& a.opts.on_conflict == b.opts.on_conflict
    &&& a.opts.dedup == b.opts.dedup
    &&& a.opts.adaptive_threshold == b.opts.adaptive_threshold
    &&& a.opts.include_video == b.opts.include_video
}

proof fn lemma_same_group(a: Job, b: Job, g: int)
    requires
        same_input(a, b),
        0 <= g < a.groups.len(),
    ensures
        g < b.groups.len(),
        a.groups[g].members@ == b.groups[g].members@,
        point_of(a, g) == point_of(b, g),
        primary_at(a, g) == primary_at(b, g),
        ships(a, g) == ships(b, g),
        level_for(a, g) == level_for(b, g),
        forall|level: Level| segments_for(a.opts, level) == segments_for(b.opts, level),
{
    groupings_are_the_same(a.photos, a.groups, b.groups);
    assert(a.groups[g].members@ == b.groups[g].members@);
    assert forall|level: Level| segments_for(a.opts, level) == segments_for(b.opts, level) by {
        assert(template_text(a.opts, level) == template_text(b.opts, level));
    }
}

proof fn lemma_same_atlas(w: World, a: Job, b: Job, n: int)
    requires
        same_input(a, b),
        n <= a.groups.len(),
    ensures
        atlas_after(w, a, n) == atlas_after(w, b, n),
    decreases n,
{
    if n > 0 {
        lemma_same_atlas(w, a, b, n - 1);
        lemma_same_group(a, b, n - 1);
    }
}

proof fn lemma_same_dir(w: World, a: Job, b: Job, i: int)
    requires
        same_input(a, b),
        0 <= i < a.photos.len(),
    ensures
        dir_of_photo(w, a, i) == dir_of_photo(w, b, i),
{
    groupings_are_the_same(a.photos, a.groups, b.groups);
    assert(is_grouped(a.groups, i));
    assert(is_grouped(b.groups, i));
    let (g, h) = (group_at(a, i), group_at(b, i));
    lemma_same_group(a, b, g);
    companions_share_a_group(b.photos, b.groups, g, h, i, i);
    lemma_same_atlas(w, a, b, g);
    lemma_same_atlas(w, a, b, g + 1);
}

/// The same input always produces the same plan, and a dry run and a real run have
/// the same one.
pub proof fn same_input_same_plan(w: World, a: Job, b: Job, n: int)
    requires
        same_input(a, b),
        n <= a.photos.len(),
    ensures
        progress(w, a, n) == progress(w, b, n),
    decreases n,
{
    if n > 0 {
        same_input_same_plan(w, a, b, n - 1);
        lemma_same_dir(w, a, b, n - 1);
        if let Some(dir) = dir_of_photo(w, a, n - 1) {
            let st = progress(w, a, n - 1).state;
            let path = wanted_path(a.photos[n - 1], dir);
            assert(target_of(w, a.opts, st.reserved, path) == target_of(
                w,
                b.opts,
                st.reserved,
                path,
            ));
        }
    }
}

proof fn lemma_shipped(job: Job, n: int, i: int)
    requires
        0 <= i < n,
    ensures
        ships(job, group_at(job, i)) == shipped(job, n).contains(i),
    decreases n,
{
    let before = shipped(job, n - 1);
    let all = shipped(job, n);
    if i < n - 1 {
        lemma_shipped(job, n - 1, i);
        if before.contains(i) {
            let k = choose|k: int| 0 <= k < before.len() && before[k] == i;
            assert(all[k] == i);
        }
        if all.contains(i) {
            let k = choose|k: int| 0 <= k < all.len() && all[k] == i;
            assert(before[k] == i);
        }
    } else {
        lemma_shipped_below(job, n - 1);
        if ships(job, group_at(job, i)) {
            assert(all[before.len() as int] == i);
        }
    }
}

proof fn lemma_shipped_below(job: Job, n: int)
    ensures
        forall|k: int| 0 <= k < shipped(job, n).len() ==> 0 <= #[trigger] shipped(job, n)[k] < n,
    decreases n,
{
    if n > 0 {
        lemma_shipped_below(job, n - 1);
        let before = shipped(job, n - 1);
        let all = shipped(job, n);
        assert forall|k: int| 0 <= k < all.len() implies 0 <= #[trigger] all[k] < n by {
            if k < before.len() {
                assert(all[k] == before[k]);
            }
        }
    }
}

/// Every photo that is what its name says has an operation in the plan, and so has every
/// file that belongs to one, whether videos are wanted or not.
pub proof fn real_photos_are_planned(w: World, job: Job, i: int, j: int)
    requires
        job.photos.len() <= usize::MAX,
        is_grouping(job.photos, job.groups),
        0 <= i < job.photos.len(),
        0 <= j < job.photos.len(),
        key_at(job.photos, i) == key_at(job.photos, j),
        job.photos[i].kind == FileKind::Image || job.photos[i].kind == FileKind::Raw,
        job.photos[i].signature_ok,
    ensures
        exists|k: int|
            0 <= k < plan_of(w, job).len() && (#[trigger] plan_of(w, job)[k]).source
                == job.photos[j].rel_path@,
{
    let n = job.photos.len() as int;
    assert(is_grouped(job.groups, j));
    let g = group_at(job, j);
    assert(is_group(job.photos, job.groups[g]));
    assert(key_at(job.photos, j) == group_key(job.photos, job.groups[g]));
    photos_are_worth_moving(
        job.photos,
        i,
        group_key(job.photos, job.groups[g]),
        job.opts.include_video,
    );
    assert(ships(job, g));
    lemma_shipped(job, n, j);
    every_photo_is_planned_once(w, job, n);
    let k = choose|k: int| 0 <= k < shipped(job, n).len() && shipped(job, n)[k] == j;
    assert(plan_of(w, job)[k].source == job.photos[j].rel_path@);
}

/// A file goes where it wants to go if nothing is there. Where a file of an earlier run is
/// there, it is left out or replaced where that was asked for, and in every other case it
/// gets a number: the lowest from 1 on that is free.
pub proof fn conflicts_are_settled_as_asked(
    w: World,
    opts: Options,
    reserved: Set<Seq<char>>,
    path: Seq<char>,
)
    requires
        !all_taken(w, opts.dest@, reserved, path),
    ensures
        ({
            let t = target_of(w, opts, reserved, path);
            let in_run = reserved.contains(path_key(path));
            let on_disk = (w.exists)(under(opts.dest@, path));
            let write = if opts.mode == Mode::Move {
                Action::Move
            } else {
                Action::Copy
            };
            if in_run || on_disk && opts.on_conflict == OnConflict::Rename {
                exists|n: nat|
                    {
                        &&& n >= 1
                        &&& t.dest == #[trigger] suffixed(path, n)
                        &&& t.action == write
                        &&& t.reason == Reason::Renamed
                        &&& !reserved.contains(path_key(t.dest))
                        &&& !(w.exists)(under(opts.dest@, t.dest))
                        &&& forall|m: nat|
                            1 <= m < n ==> reserved.contains(path_key(#[trigger] suffixed(path, m)))
                                || (w.exists)(under(opts.dest@, suffixed(path, m)))
                    }
            } else {
                &&& t.dest == path
                &&& on_disk ==> t.reason == Reason::ExistingFile
                &&& on_disk && opts.on_conflict == OnConflict::Skip ==> t.action == Action::Skip
                &&& on_disk && opts.on_conflict == OnConflict::Overwrite ==> t.action
                    == Action::Overwrite
                &&& !on_disk ==> t.reason == Reason::Planned && t.action == write
            }
        }),
{
    let n = choose|n: nat|
        1 <= n <= u32::MAX && #[trigger] is_free(w, opts.dest@, reserved, suffixed(path, n));
    lemma_first_free_exists(w, opts.dest@, reserved, path, n);
    let first = first_free(w, opts.dest@, reserved, path);
    assert(is_first_free(w, opts.dest@, reserved, path, first));
    assert(is_free(w, opts.dest@, reserved, suffixed(path, first)));
}

/// A number goes behind an underscore between the stem of a name and its extension.
pub proof fn numbers_go_before_the_extension(
    dir: Seq<char>,
    stem: Seq<char>,
    ext: Seq<char>,
    n: nat,
)
    requires
        stem.len() > 0,
        !stem.contains('/') && !ext.contains('/') && !ext.contains('.'),
    ensures
        suffixed(under(dir, stem + seq!['.'] + ext), n) == under(
            dir,
            stem + seq!['_'] + decimal(n) + seq!['.'] + ext,
        ),
{
    let name = stem + seq!['.'] + ext;
    assert(!name.contains('/')) by {
        assert forall|i: int| 0 <= i < name.len() implies name[i] != '/' by {
            if i < stem.len() {
                assert(stem.contains(stem[i]));
            } else if i > stem.len() {
                assert(ext.contains(ext[i - stem.len() - 1]));
            }
        }
    }
    name_and_directory_come_apart(dir, name);
    stem_and_extension_come_apart(stem, ext);
}

} // verus!
