//! The plan phase: serial, deterministic, and the only place where
//! non-determinism (collision suffixes, ordering, duplicate resolution) is
//! allowed to be resolved. Pass 2 executes what this produced and decides
//! nothing on its own.
//!
//! Planning asks questions about the disk and about places and goes on when they
//! are answered. What the disk and the places are is a `World`; a planner stands
//! for every world in which the answers that it was given are true.

use crate::adaptive::{days, decide, level_of, Level};
use crate::cities::{Found, Place};
use crate::companion;
use crate::companion::{
    carries_media, group_key, is_group, is_grouped, key_at, primary_of, CompanionGroup,
};
use crate::components::{relative, relative_to};
use crate::config::{DedupMode, Granularity, LocationDepth, Mode, OnConflict, Options};
use crate::dedup::{
    digest_view, identical, of_size, texts, Contents, Digest, HashCache, HashQuery, SizeIndex,
};
use crate::error::{FatalError, Flaw, TemplateError};
use crate::geocode::{cell_key, found_view, names_view, resolved, Atlas, Locator};
use crate::metadata::{day_of, file_name_in, Gps, PhotoMetadata};
use crate::paths::{
    extension_in, extension_part, join, join_chars, name_of_path, name_part, parent_of, parent_part,
    stem_of, stem_part, under,
};
use crate::sanitize::{file_name, file_name_of};
use crate::spill::Spill;
use crate::tables::TextMap;
use crate::template::{
    mentions, parsed, rendered, text_view, Class, Location, Place as PlaceNames, RenderVars,
    Subject, Template, Token,
};
use crate::text::{
    ascii_lower, char_at, chars_of, copied, decimal, decimal_chars, joined, lower_char, push_all,
    text_of,
};
use crate::twins::{asks_of_twins, first_twin, index_view, TwinView, Twins};
use vstd::prelude::*;

verus! {

#[derive(Debug, Clone, Copy, PartialEq, Eq, Structural)]
pub enum Action {
    Copy,
    Move,
    Skip,
    Overwrite,
}

impl Action {
    pub open spec fn pending(self) -> bool {
        !(self is Skip)
    }

    /// Does this operation touch the filesystem in pass 2?
    pub fn is_pending(self) -> (b: bool)
        ensures
            b == self.pending(),
    {
        !matches!(self, Action::Skip)
    }
}

/// Why an operation looks the way it does. Duplicates are a distinct outcome,
/// never a generic skip.
#[derive(Debug, Clone, Copy, PartialEq, Eq, Structural)]
pub enum Reason {
    Planned,
    /// Identical bytes already at the destination.
    DuplicateOfDestination,
    /// Identical bytes to an earlier file in this same source set.
    DuplicateOfSource,
    /// A different file already occupies the destination.
    Renamed,
    ExistingFile,
    /// Recorded in the `--resume` journal.
    AlreadyDone,
}

#[derive(Debug, Clone, PartialEq, Eq)]
pub struct Operation {
    /// Relative to the source root, which the plan stores once.
    pub source_rel: String,
    /// Relative to the destination root. `None` only for skips with no target.
    pub dest_rel: Option<String>,
    pub action: Action,
    pub reason: Reason,
    pub bytes: u64,
    /// The file this one duplicates, for duplicate reasons.
    pub duplicate_of: Option<String>,
}

/// What an `Operation` stands for.
#[verifier::ext_equal]
pub struct Op {
    pub source: Seq<char>,
    pub dest: Option<Seq<char>>,
    pub action: Action,
    pub reason: Reason,
    pub bytes: u64,
    pub duplicate_of: Option<Seq<char>>,
}

impl View for Operation {
    type V = Op;

    open spec fn view(&self) -> Op {
        Op {
            source: self.source_rel@,
            dest: text_view(self.dest_rel),
            action: self.action,
            reason: self.reason,
            bytes: self.bytes,
            duplicate_of: text_view(self.duplicate_of),
        }
    }
}

/// What the planner cannot know by itself: which paths exist, what the files
/// hold, and which place is nearest to a point.
pub struct World {
    pub exists: spec_fn(Seq<char>) -> bool,
    pub contents: Contents,
    pub nearest: spec_fn(Gps) -> Option<Found>,
}

/// Whether `char::is_uppercase` of the standard library holds of a character.
pub uninterp spec fn char_is_upper(c: char) -> bool;

/// What `char::to_lowercase` of the standard library makes of a character.
pub uninterp spec fn char_lowercase(c: char) -> Seq<char>;

/// `char::is_uppercase`: the Unicode Uppercase property of the character.
#[verifier::external_body]
fn is_upper(c: char) -> (b: bool)
    ensures
        b == char_is_upper(c),
{
    c.is_uppercase()
}

/// `char::to_lowercase`, collected: the lowercase mapping of the character, one
/// or more characters.
#[verifier::external_body]
fn lowercase(c: char) -> (v: Vec<char>)
    ensures
        v@ == char_lowercase(c),
{
    c.to_lowercase().collect()
}

pub open spec fn key_char(c: char) -> Seq<char> {
    if c == '\\' {
        seq!['/']
    } else if (c as u32) < 0x80 {
        seq![ascii_lower(c)]
    } else if char_is_upper(c) {
        char_lowercase(c)
    } else {
        seq![c]
    }
}

/// Case- and separator-insensitive form of a destination path: a
/// case-insensitive filesystem must not be handed two names that differ only in
/// case.
pub open spec fn path_key(s: Seq<char>) -> Seq<char>
    decreases s.len(),
{
    if s.len() == 0 {
        seq![]
    } else {
        path_key(s.drop_last()) + key_char(s.last())
    }
}

fn key(path: &str) -> (r: String)
    ensures
        r@ == path_key(path@),
{
    let v = chars_of(path);
    let mut out: Vec<char> = Vec::new();
    let mut i: usize = 0;
    while i < v.len()
        invariant
            v@ == path@,
            i <= v@.len(),
            out@ == path_key(v@.take(i as int)),
        decreases v@.len() - i,
    {
        let c = char_at(&v, i);
        assert(v@.take(i + 1).drop_last() =~= v@.take(i as int));
        if c == '\\' {
            out.push('/');
        } else if (c as u32) < 0x80 {
            out.push(lower_char(c));
        } else if is_upper(c) {
            push_all(&mut out, &lowercase(c));
        } else {
            out.push(c);
        }
        assert(out@ =~= path_key(v@.take(i + 1)));
        i += 1;
    }
    assert(v@.take(i as int) =~= v@);
    text_of(&out)
}

/// What planning remembers from one photo to the next: the destinations that are
/// taken, and the files that are shipped.
#[verifier::ext_equal]
pub struct PlanState {
    pub reserved: Set<Seq<char>>,
    pub twins: Seq<TwinView>,
}

/// Whether a destination is free: not taken in this run, and not on the disk.
pub open spec fn is_free(
    w: World,
    root: Seq<char>,
    reserved: Set<Seq<char>>,
    path: Seq<char>,
) -> bool {
    !reserved.contains(path_key(path)) && !(w.exists)(under(root, path))
}

/// A path with a number behind its stem.
pub open spec fn suffixed(path: Seq<char>, n: nat) -> Seq<char> {
    let name = name_of_path(path);
    let numbered = stem_of(name) + seq!['_'] + decimal(n);
    under(
        parent_of(path),
        match extension_in(name) {
            Some(ext) => numbered + seq!['.'] + ext,
            None => numbered,
        },
    )
}

/// Whether `n` is the first number from 1 on that makes the path free.
pub open spec fn is_first_free(
    w: World,
    root: Seq<char>,
    reserved: Set<Seq<char>>,
    path: Seq<char>,
    n: nat,
) -> bool {
    &&& n >= 1
    &&& is_free(w, root, reserved, suffixed(path, n))
    &&& forall|m: nat|
        1 <= m < n ==> !is_free(w, root, reserved, #[trigger] suffixed(path, m))
}

pub open spec fn first_free(
    w: World,
    root: Seq<char>,
    reserved: Set<Seq<char>>,
    path: Seq<char>,
) -> nat {
    choose|n: nat| is_first_free(w, root, reserved, path, n)
}

/// A path by which a file that wants to go to `path` can be found on the disk: the
/// path itself, or one with a number.
pub open spec fn is_choice(abs: Seq<char>, root: Seq<char>, path: Seq<char>) -> bool {
    abs == under(root, path) || exists|n: nat|
        1 <= n <= u32::MAX && abs == under(root, #[trigger] suffixed(path, n))
}

pub open spec fn copy_or_move(mode: Mode) -> Action {
    match mode {
        Mode::Copy => Action::Copy,
        Mode::Move => Action::Move,
    }
}

/// Where a file goes, and how.
#[verifier::ext_equal]
pub struct Target {
    pub dest: Seq<char>,
    pub action: Action,
    pub reason: Reason,
}

/// Where a file goes that wants to go to `path`. Two sources colliding *within
/// one run* always rename: `--on-conflict overwrite` is about pre-existing files,
/// not about silently dropping half of this run's input.
pub open spec fn target_of(
    w: World,
    opts: Options,
    reserved: Set<Seq<char>>,
    path: Seq<char>,
) -> Target {
    let in_run = reserved.contains(path_key(path));
    let on_disk = (w.exists)(under(opts.dest@, path));
    if !in_run && !on_disk {
        Target { dest: path, action: copy_or_move(opts.mode), reason: Reason::Planned }
    } else if !in_run && opts.on_conflict == OnConflict::Skip {
        Target { dest: path, action: Action::Skip, reason: Reason::ExistingFile }
    } else if !in_run && opts.on_conflict == OnConflict::Overwrite {
        Target { dest: path, action: Action::Overwrite, reason: Reason::ExistingFile }
    } else {
        Target {
            dest: suffixed(path, first_free(w, opts.dest@, reserved, path)),
            action: copy_or_move(opts.mode),
            reason: Reason::Renamed,
        }
    }
}

/// Whether a question is about one of the paths, or about the file itself where there
/// are any.
pub open spec fn asks_of_paths(
    q: HashQuery,
    paths: Seq<Seq<char>>,
    abs: Seq<char>,
    size: u64,
) -> bool {
    exists|i: int|
        0 <= i < paths.len() && (q.is_about(abs, size) || q.is_about(#[trigger] paths[i], size))
}

/// The first path, from the `from`th on, that holds identical bytes.
pub open spec fn first_same(
    c: Contents,
    abs: Seq<char>,
    paths: Seq<Seq<char>>,
    size: u64,
    from: int,
) -> Option<int>
    decreases paths.len() - from,
{
    if from < 0 || from >= paths.len() {
        None
    } else if identical(c, abs, paths[from], size as nat) {
        Some(from)
    } else {
        first_same(c, abs, paths, size, from + 1)
    }
}

/// Where a photo wants to go.
pub open spec fn wanted_path(photo: PhotoMetadata, dir: Seq<char>) -> Seq<char> {
    under(dir, file_name_of(file_name_in(photo.rel_path@)))
}

/// Whether a question is about the photo, or about a file that it could be a
/// duplicate of: one of its size that is shipped or that the destination holds.
pub open spec fn asks_of_contents(
    q: HashQuery,
    opts: Options,
    index: Seq<(u64, Seq<char>)>,
    twins: Seq<TwinView>,
    photo: PhotoMetadata,
) -> bool {
    let abs = under(opts.source@, photo.rel_path@);
    ||| asks_of_twins(q, opts.source@, twins, abs, photo.size)
    ||| asks_of_paths(q, of_size(index, photo.size), abs, photo.size)
}

/// What planning one photo yields.
#[verifier::ext_equal]
pub struct Planned {
    pub op: Op,
    pub state: PlanState,
}

/// The operation for a photo that goes to the directory `dir`, and what is
/// remembered of it.
pub open spec fn plan_photo(
    w: World,
    opts: Options,
    done: Map<Seq<char>, Seq<char>>,
    index: Seq<(u64, Seq<char>)>,
    photo: PhotoMetadata,
    dir: Seq<char>,
    st: PlanState,
) -> Planned {
    let rel = photo.rel_path@;
    let abs = under(opts.source@, rel);
    let size = photo.size;
    let dedup = opts.dedup == DedupMode::SizeHash;
    let twin = first_twin(w.contents, opts.source@, st.twins, abs, size, 0);
    let same = first_same(w.contents, abs, of_size(index, size), size, 0);
    if done.dom().contains(rel) {
        let dest = done[rel];
        Planned {
            op: Op {
                source: rel,
                dest: Some(dest),
                action: Action::Skip,
                reason: Reason::AlreadyDone,
                bytes: size,
                duplicate_of: None,
            },
            state: PlanState {
                reserved: st.reserved.insert(path_key(dest)),
                twins: if dedup {
                    st.twins.push(TwinView { source: rel, dest: Some(dest), size })
                } else {
                    st.twins
                },
            },
        }
    } else if dedup && twin is Some {
        let other = st.twins[twin.unwrap()];
        Planned {
            op: Op {
                source: rel,
                dest: other.dest,
                action: Action::Skip,
                reason: Reason::DuplicateOfSource,
                bytes: size,
                duplicate_of: Some(other.source),
            },
            state: st,
        }
    } else if dedup && same is Some {
        let other = relative_to(opts.dest@, of_size(index, size)[same.unwrap()]);
        Planned {
            op: Op {
                source: rel,
                dest: Some(other),
                action: Action::Skip,
                reason: Reason::DuplicateOfDestination,
                bytes: size,
                duplicate_of: Some(other),
            },
            state: st,
        }
    } else {
        let t = target_of(w, opts, st.reserved, wanted_path(photo, dir));
        Planned {
            op: Op {
                source: rel,
                dest: Some(t.dest),
                action: t.action,
                reason: t.reason,
                bytes: size,
                duplicate_of: None,
            },
            state: PlanState {
                reserved: st.reserved.insert(path_key(t.dest)),
                twins: if dedup && t.action.pending() {
                    st.twins.push(TwinView { source: rel, dest: Some(t.dest), size })
                } else {
                    st.twins
                },
            },
        }
    }
}

/// A question that planning asks.
#[derive(Debug)]
pub enum Query {
    /// Does the path exist?
    Exists(String),
    /// What is the hash of the file?
    Hash(HashQuery),
    /// Which place is nearest to the point?
    Nearest(Gps),
}

/// Why a photo cannot be planned yet, or not at all.
enum Unsettled {
    Ask(Query),
    NoFreeName,
}

/// Every answer about a path is true of the world.
pub open spec fn seen_agrees(seen: Map<Seq<char>, bool>, w: World) -> bool {
    forall|p: Seq<char>| seen.dom().contains(p) ==> #[trigger] seen[p] == (w.exists)(p)
}

struct Placed {
    dest: String,
    action: Action,
    reason: Reason,
}

impl View for Placed {
    type V = Target;

    closed spec fn view(&self) -> Target {
        Target { dest: self.dest@, action: self.action, reason: self.reason }
    }
}

fn with_suffix(path: &str, n: u32) -> (r: String)
    ensures
        r@ == suffixed(path@, n as nat),
{
    let v = chars_of(path);
    let dir = parent_part(&v);
    let name = name_part(&v);
    let mut out = copied(stem_part(name));
    out.push('_');
    push_all(&mut out, &decimal_chars(n as u64));
    assert(out@ =~= stem_of(name@) + seq!['_'] + decimal(n as nat));
    if let Some(ext) = extension_part(name) {
        let ghost numbered = out@;
        out.push('.');
        push_all(&mut out, ext);
        assert(out@ =~= numbered + seq!['.'] + ext@);
    }
    text_of(&join_chars(dir, &out))
}

/// There is one first free number.
proof fn lemma_first_free(
    w: World,
    root: Seq<char>,
    reserved: Set<Seq<char>>,
    path: Seq<char>,
    n: nat,
)
    requires
        is_first_free(w, root, reserved, path, n),
    ensures
        first_free(w, root, reserved, path) == n,
{
    let m = first_free(w, root, reserved, path);
    assert(is_first_free(w, root, reserved, path, m));
    if m < n {
        assert(!is_free(w, root, reserved, suffixed(path, m)));
    } else if n < m {
        assert(!is_free(w, root, reserved, suffixed(path, n)));
    }
}

/// Whether every numbered form of a path is taken.
pub open spec fn all_taken(
    w: World,
    root: Seq<char>,
    reserved: Set<Seq<char>>,
    path: Seq<char>,
) -> bool {
    forall|n: nat| 1 <= n <= u32::MAX ==> !#[trigger] is_free(w, root, reserved, suffixed(path, n))
}

/// Assign a free destination.
fn resolve_conflict(
    wanted: String,
    opts: &Options,
    reserved: &TextMap<()>,
    seen: &TextMap<bool>,
) -> (r: Result<Placed, Unsettled>)
    ensures
        match r {
            Ok(t) => forall|w: World| #[trigger]
                seen_agrees(seen@, w) ==> {
                    &&& t@ == target_of(w, *opts, reserved@.dom(), wanted@)
                    &&& t@.reason is Renamed ==> !all_taken(
                        w,
                        opts.dest@,
                        reserved@.dom(),
                        wanted@,
                    )
                },
            Err(Unsettled::Ask(q)) => q matches Query::Exists(p) && !seen@.dom().contains(p@)
                && is_choice(p@, opts.dest@, wanted@),
            Err(Unsettled::NoFreeName) => forall|w: World| #[trigger]
                seen_agrees(seen@, w) ==> {
                    &&& target_of(w, *opts, reserved@.dom(), wanted@).reason is Renamed
                    &&& all_taken(w, opts.dest@, reserved@.dom(), wanted@)
                },
        },
{
    let ghost root = opts.dest@;
    let ghost taken = reserved@.dom();
    let ghost path = wanted@;
    let action = match opts.mode {
        Mode::Copy => Action::Copy,
        Mode::Move => Action::Move,
    };
    let in_run = reserved.contains(key(wanted.as_str()).as_str());
    if !in_run {
        let abs = join(opts.dest.as_str(), wanted.as_str());
        match seen.get(abs.as_str()) {
            None => {
                return Err(Unsettled::Ask(Query::Exists(abs)));
            },
            Some(on_disk) => {
                if !*on_disk {
                    return Ok(Placed { dest: wanted, action, reason: Reason::Planned });
                }
                match opts.on_conflict {
                    OnConflict::Skip => {
                        return Ok(
                            Placed {
                                dest: wanted,
                                action: Action::Skip,
                                reason: Reason::ExistingFile,
                            },
                        );
                    },
                    OnConflict::Overwrite => {
                        return Ok(
                            Placed {
                                dest: wanted,
                                action: Action::Overwrite,
                                reason: Reason::ExistingFile,
                            },
                        );
                    },
                    OnConflict::Rename => {},
                }
            },
        }
    }
    assert forall|w: World| #[trigger] seen_agrees(seen@, w) implies target_of(
        w,
        *opts,
        taken,
        path,
    ) == (Target {
        dest: suffixed(path, first_free(w, root, taken, path)),
        action,
        reason: Reason::Renamed,
    }) by {}
    let mut n: u32 = 1;
    loop
        invariant
            n >= 1,
            root == opts.dest@,
            taken == reserved@.dom(),
            path == wanted@,
            forall|w: World| #[trigger]
                seen_agrees(seen@, w) ==> target_of(w, *opts, taken, path) == (Target {
                    dest: suffixed(path, first_free(w, root, taken, path)),
                    action,
                    reason: Reason::Renamed,
                }),
            forall|w: World, m: nat|
                seen_agrees(seen@, w) && 1 <= m < n ==> !#[trigger] is_free(
                    w,
                    root,
                    taken,
                    suffixed(path, m),
                ),
        decreases u32::MAX - n,
    {
        let candidate = with_suffix(wanted.as_str(), n);
        if !reserved.contains(key(candidate.as_str()).as_str()) {
            let abs = join(opts.dest.as_str(), candidate.as_str());
            match seen.get(abs.as_str()) {
                None => {
                    assert(abs@ == under(root, suffixed(path, n as nat)));
                    return Err(Unsettled::Ask(Query::Exists(abs)));
                },
                Some(on_disk) => {
                    if !*on_disk {
                        proof {
                            assert forall|w: World| #[trigger]
                                seen_agrees(seen@, w) implies candidate@ == suffixed(
                                path,
                                first_free(w, root, taken, path),
                            ) by {
                                assert forall|m: nat| 1 <= m < n implies !is_free(
                                    w,
                                    root,
                                    taken,
                                    #[trigger] suffixed(path, m),
                                ) by {
                                    assert(!is_free(w, root, taken, suffixed(path, m)));
                                }
                                assert(is_first_free(w, root, taken, path, n as nat));
                                lemma_first_free(w, root, taken, path, n as nat);
                            }
                            assert forall|w: World| #[trigger]
                                seen_agrees(seen@, w) implies !all_taken(
                                w,
                                root,
                                taken,
                                path,
                            ) by {
                                assert(is_free(w, root, taken, suffixed(path, n as nat)));
                            }
                        }
                        return Ok(Placed { dest: candidate, action, reason: Reason::Renamed });
                    }
                },
            }
        }
        if n == u32::MAX {
            return Err(Unsettled::NoFreeName);
        }
        n += 1;
    }
}

fn copy_text(t: &Option<String>) -> (r: Option<String>)
    ensures
        text_view(r) == text_view(*t),
{
    match t {
        Some(t) => Some(t.clone()),
        None => None,
    }
}

/// The first candidate that holds identical bytes.
fn find_same(hashes: &HashCache, abs: &str, candidates: &[String], size: u64) -> (r: Result<
    Option<usize>,
    HashQuery,
>)
    ensures
        match r {
            Ok(found) => {
                &&& found matches Some(i) ==> i < candidates@.len()
                &&& forall|c: Contents| #[trigger]
                    hashes.agrees(c) ==> first_same(c, abs@, texts(candidates@), size, 0)
                        == index_view(found)
            },
            Err(q) => !hashes.knows(q) && asks_of_paths(q, texts(candidates@), abs@, size),
        },
{
    let ghost paths = texts(candidates@);
    let mut i: usize = 0;
    while i < candidates.len()
        invariant
            paths == texts(candidates@),
            i <= candidates@.len(),
            forall|c: Contents| #[trigger]
                hashes.agrees(c) ==> first_same(c, abs@, paths, size, 0) == first_same(
                    c,
                    abs@,
                    paths,
                    size,
                    i as int,
                ),
        decreases candidates@.len() - i,
    {
        assert(paths[i as int] == candidates@[i as int]@);
        match hashes.same_bytes(abs, candidates[i].as_str(), size) {
            Err(q) => {
                return Err(q);
            },
            Ok(same) => {
                if same {
                    return Ok(Some(i));
                }
            },
        }
        i += 1;
    }
    Ok(None)
}

/// The texts of the journal.
pub open spec fn done_view(done: Map<Seq<char>, String>) -> Map<Seq<char>, Seq<char>> {
    done.map_values(|s: String| s@)
}

/// Whether the photo has to get a number and every name that it could get by one is
/// taken.
pub open spec fn nowhere_to_go(
    w: World,
    opts: Options,
    done: Map<Seq<char>, Seq<char>>,
    index: Seq<(u64, Seq<char>)>,
    photo: PhotoMetadata,
    dir: Seq<char>,
    st: PlanState,
) -> bool {
    &&& plan_photo(w, opts, done, index, photo, dir, st).op.reason is Renamed
    &&& all_taken(w, opts.dest@, st.reserved, wanted_path(photo, dir))
}

/// Plans one photo, or says what has to be known first.
fn plan_one(
    photo: &PhotoMetadata,
    dir: &str,
    opts: &Options,
    done: &TextMap<String>,
    dest_index: &SizeIndex,
    hashes: &HashCache,
    seen: &TextMap<bool>,
    reserved: &mut TextMap<()>,
    twins: &mut Twins,
) -> (r: Result<Operation, Unsettled>)
    requires
        dest_index.wf(),
        old(twins).wf(),
    ensures
        final(twins).wf(),
        match r {
            Ok(op) => op.bytes == photo.size && forall|w: World|
                old(twins).agrees(opts.source@, w.contents) && hashes.agrees(w.contents)
                    && #[trigger] seen_agrees(seen@, w) ==> final(twins).agrees(
                    opts.source@,
                    w.contents,
                ) && plan_photo(
                    w,
                    *opts,
                    done_view(done@),
                    dest_index@,
                    *photo,
                    dir@,
                    PlanState { reserved: old(reserved)@.dom(), twins: old(twins)@ },
                ) == (Planned {
                    op: op@,
                    state: PlanState { reserved: final(reserved)@.dom(), twins: final(twins)@ },
                }) && !nowhere_to_go(
                    w,
                    *opts,
                    done_view(done@),
                    dest_index@,
                    *photo,
                    dir@,
                    PlanState { reserved: old(reserved)@.dom(), twins: old(twins)@ },
                ),
            Err(e) => {
                &&& final(reserved)@ == old(reserved)@
                &&& final(twins)@ == old(twins)@
                &&& forall|c: Contents| #[trigger]
                    old(twins).agrees(opts.source@, c) && hashes.agrees(c)
                        ==> final(twins).agrees(opts.source@, c)
                &&& match e {
                    Unsettled::Ask(Query::Exists(p)) => !seen@.dom().contains(p@) && is_choice(
                        p@,
                        opts.dest@,
                        wanted_path(*photo, dir@),
                    ),
                    Unsettled::Ask(Query::Hash(h)) => !hashes.knows(h) && asks_of_contents(
                        h,
                        *opts,
                        dest_index@,
                        old(twins)@,
                        *photo,
                    ),
                    Unsettled::Ask(Query::Nearest(_)) => false,
                    Unsettled::NoFreeName => forall|w: World|
                        old(twins).agrees(opts.source@, w.contents) && hashes.agrees(w.contents)
                            && #[trigger] seen_agrees(seen@, w) ==> nowhere_to_go(
                            w,
                            *opts,
                            done_view(done@),
                            dest_index@,
                            *photo,
                            dir@,
                            PlanState { reserved: old(reserved)@.dom(), twins: old(twins)@ },
                        ),
                }
            },
        },
{
    let ghost st = PlanState { reserved: reserved@.dom(), twins: twins@ };
    let ghost ghost_done = done_view(done@);
    let rel = photo.rel_path.as_str();
    let dedup = opts.dedup == DedupMode::SizeHash;
    if let Some(dest) = done.get(rel) {
        reserved.insert(key(dest.as_str()), ());
        assert(reserved@.dom() =~= st.reserved.insert(path_key(dest@)));
        // A resumed file still counts as content already shipped, so later
        // twins of it are duplicates rather than a second copy under a new name.
        if dedup {
            twins.remember(photo.rel_path.clone(), Some(dest.clone()), photo.size);
        }
        return Ok(
            Operation {
                source_rel: photo.rel_path.clone(),
                dest_rel: Some(dest.clone()),
                action: Action::Skip,
                reason: Reason::AlreadyDone,
                bytes: photo.size,
                duplicate_of: None,
            },
        );
    }
    if dedup {
        let abs = join(opts.source.as_str(), rel);
        // Source set first: it needs no disk index and catches re-imported
        // cards, where the same bytes arrive under two names.
        match twins.find(hashes, opts.source.as_str(), abs.as_str(), photo.size) {
            Err(q) => {
                return Err(Unsettled::Ask(Query::Hash(q)));
            },
            Ok(Some(at)) => {
                let (other, dest_rel) = twins.at(at);
                return Ok(
                    Operation {
                        source_rel: photo.rel_path.clone(),
                        dest_rel: copy_text(dest_rel),
                        action: Action::Skip,
                        reason: Reason::DuplicateOfSource,
                        bytes: photo.size,
                        duplicate_of: Some(other.to_owned()),
                    },
                );
            },
            Ok(None) => {},
        }
        let candidates = dest_index.candidates(photo.size);
        match find_same(hashes, abs.as_str(), candidates, photo.size) {
            Err(q) => {
                return Err(Unsettled::Ask(Query::Hash(q)));
            },
            Ok(Some(at)) => {
                assert(texts(candidates@)[at as int] == candidates@[at as int]@);
                let other = relative(opts.dest.as_str(), candidates[at].as_str());
                return Ok(
                    Operation {
                        source_rel: photo.rel_path.clone(),
                        dest_rel: Some(other.clone()),
                        action: Action::Skip,
                        reason: Reason::DuplicateOfDestination,
                        bytes: photo.size,
                        duplicate_of: Some(other),
                    },
                );
            },
            Ok(None) => {},
        }
    }
    let name = file_name(photo.file_name().as_str());
    let wanted = join(dir, name.as_str());
    match resolve_conflict(wanted, opts, reserved, seen) {
        Err(e) => Err(e),
        Ok(t) => {
            reserved.insert(key(t.dest.as_str()), ());
            assert(reserved@.dom() =~= st.reserved.insert(path_key(t.dest@)));
            if dedup && t.action.is_pending() {
                twins.remember(photo.rel_path.clone(), Some(t.dest.clone()), photo.size);
            }
            Ok(
                Operation {
                    source_rel: photo.rel_path.clone(),
                    dest_rel: Some(t.dest),
                    action: t.action,
                    reason: t.reason,
                    bytes: photo.size,
                    duplicate_of: None,
                },
            )
        },
    }
}

/// Whether the layout is chosen per node.
pub open spec fn is_adaptive(opts: Options) -> bool {
    opts.group == Granularity::Adaptive && opts.template is None
}

/// The template of a level; all levels share one unless the layout is adaptive.
pub open spec fn template_text(opts: Options, level: Level) -> Seq<char> {
    if is_adaptive(opts) {
        opts.expansion(level.preset())
    } else {
        opts.expansion(opts.group.preset())
    }
}

pub open spec fn flaw_in(r: Result<Seq<Seq<Token>>, Flaw>) -> Option<Flaw> {
    match r {
        Ok(_) => None,
        Err(e) => Some(e),
    }
}

/// Why the templates are refused: the first flaw, in the order year, month,
/// week.
pub open spec fn templates_flaw(opts: Options) -> Option<Flaw> {
    let year = flaw_in(parsed(template_text(opts, Level::Year)));
    let month = flaw_in(parsed(template_text(opts, Level::Month)));
    let week = flaw_in(parsed(template_text(opts, Level::Week)));
    if year is Some {
        year
    } else if month is Some {
        month
    } else {
        week
    }
}

/// The path components of the template of a level.
pub open spec fn segments_for(opts: Options, level: Level) -> Seq<Seq<Token>> {
    match parsed(template_text(opts, level)) {
        Ok(segs) => segs,
        Err(_) => seq![],
    }
}

/// Whether a template names places.
pub open spec fn names_places(segs: Seq<Seq<Token>>) -> bool {
    exists|k: int| 0 <= k < segs.len() && mentions(#[trigger] segs[k], Class::Location)
}

/// Whether places are to be looked up.
pub open spec fn uses_place(opts: Options) -> bool {
    names_places(segments_for(opts, Level::Year))
}

/// One template for fixed grouping, one per level for adaptive.
enum Templates {
    Fixed { template: Template, uses_location: bool },
    Adaptive { year: Template, month: Template, week: Template, uses_location: bool },
}

impl Templates {
    spec fn wf(self, opts: Options) -> bool {
        match self {
            Templates::Fixed { template, uses_location } => {
                &&& !is_adaptive(opts)
                &&& template@ == segments_for(opts, Level::Year)
                &&& uses_location == uses_place(opts)
            },
            Templates::Adaptive { year, month, week, uses_location } => {
                &&& is_adaptive(opts)
                &&& year@ == segments_for(opts, Level::Year)
                &&& month@ == segments_for(opts, Level::Month)
                &&& week@ == segments_for(opts, Level::Week)
                &&& uses_location == uses_place(opts)
            },
        }
    }

    fn build(opts: &Options) -> (r: Result<Templates, FatalError>)
        ensures
            match r {
                Ok(t) => templates_flaw(*opts) is None && t.wf(*opts),
                Err(FatalError::Template(e)) => templates_flaw(*opts) == Some(e@),
                Err(_) => false,
            },
    {
        if matches!(opts.group, Granularity::Adaptive) && opts.template.is_none() {
            let year = match Template::parse(
                opts.template_with_base(Level::Year.template_str()).as_str(),
            ) {
                Ok(t) => t,
                Err(e) => {
                    return Err(FatalError::Template(e));
                },
            };
            let uses_location = year.uses_location();
            assert(year@ == segments_for(*opts, Level::Year));
            assert(uses_location == uses_place(*opts));
            let month = match Template::parse(
                opts.template_with_base(Level::Month.template_str()).as_str(),
            ) {
                Ok(t) => t,
                Err(e) => {
                    return Err(FatalError::Template(e));
                },
            };
            let week = match Template::parse(
                opts.template_with_base(Level::Week.template_str()).as_str(),
            ) {
                Ok(t) => t,
                Err(e) => {
                    return Err(FatalError::Template(e));
                },
            };
            return Ok(Templates::Adaptive { year, month, week, uses_location });
        }
        match opts.build_template(opts.group) {
            Ok(template) => {
                let uses_location = template.uses_location();
                assert(template@ == segments_for(*opts, Level::Year));
                assert(uses_location == uses_place(*opts));
                Ok(Templates::Fixed { template, uses_location })
            },
            Err(e) => Err(FatalError::Template(e)),
        }
    }

    fn for_level(&self, level: Level, Ghost(opts): Ghost<Options>) -> (r: &Template)
        requires
            self.wf(opts),
        ensures
            r@ == segments_for(opts, level),
    {
        match self {
            Templates::Fixed { template, .. } => template,
            Templates::Adaptive { year, month, week, .. } => match level {
                Level::Year => year,
                Level::Month => month,
                Level::Week => week,
            },
        }
    }

    fn uses_location(&self, Ghost(opts): Ghost<Options>) -> (b: bool)
        requires
            self.wf(opts),
        ensures
            b == uses_place(opts),
    {
        match self {
            Templates::Fixed { uses_location, .. } => *uses_location,
            Templates::Adaptive { uses_location, .. } => *uses_location,
        }
    }
}

/// The day of the photo that a photo's group takes its date from.
pub open spec fn primary_day(photos: Seq<PhotoMetadata>, i: int) -> Option<crate::calendar::Ymd> {
    match primary_of(photos, key_at(photos, i)) {
        Some(p) => day_of(photos[p].taken),
        None => None,
    }
}

/// The days that adaptive grouping counts: it counts *files*, not groups, since
/// a year of Live Photo pairs is twice as crowded as the group count suggests.
pub open spec fn counted_days(photos: Seq<PhotoMetadata>) -> Seq<Option<crate::calendar::Ymd>> {
    Seq::new(photos.len(), |i: int| primary_day(photos, i))
}

/// Whether one of the first `n` groups holds the photo.
spec fn in_first(groups: Seq<CompanionGroup>, n: int, i: int) -> bool {
    exists|g: int|
        0 <= g < n && g < groups.len() && (#[trigger] groups[g]).members@.contains(i as usize)
}

fn group_dates(photos: &[PhotoMetadata], groups: &[CompanionGroup]) -> (r: Vec<
    Option<crate::calendar::Date>,
>)
    requires
        companion::is_grouping(photos@, groups@),
    ensures
        days(r@) == counted_days(photos@),
{
    let n = photos.len();
    let mut dates: Vec<Option<crate::calendar::Date>> = Vec::new();
    let mut i: usize = 0;
    while i < n
        invariant
            i <= n,
            dates@.len() == i,
        decreases n - i,
    {
        dates.push(None);
        i += 1;
    }
    let mut g: usize = 0;
    while g < groups.len()
        invariant
            n == photos@.len(),
            companion::is_grouping(photos@, groups@),
            g <= groups@.len(),
            dates@.len() == n,
            forall|i: int|
                0 <= i < n && #[trigger] in_first(groups@, g as int, i) ==> days(dates@)[i]
                    == primary_day(photos@, i),
        decreases groups@.len() - g,
    {
        let group = &groups[g];
        assert(is_group(photos@, groups@[g as int]));
        proof {
            companion::primary_is_best(photos@, group_key(photos@, *group), n as int);
        }
        let date = photos[group.primary].date();
        let ghost before = dates@;
        let mut k: usize = 0;
        while k < group.members.len()
            invariant
                n == photos@.len(),
                is_group(photos@, *group),
                k <= group.members@.len(),
                dates@.len() == n,
                before.len() == n,
                forall|i: int|
                    0 <= i < n ==> #[trigger] dates@[i] == (if group.members@.take(
                        k as int,
                    ).contains(i as usize) {
                        date
                    } else {
                        before[i]
                    }),
            decreases group.members@.len() - k,
        {
            let m = group.members[k];
            assert(group.members@[k as int] < photos@.len());
            let ghost now = dates@;
            dates.set(m, date);
            proof {
                let short = group.members@.take(k as int);
                let long = group.members@.take(k + 1);
                assert forall|i: int| 0 <= i < n implies #[trigger] dates@[i] == (
                if long.contains(i as usize) {
                    date
                } else {
                    before[i]
                }) by {
                    if i == m {
                        assert(long[k as int] == i as usize);
                    } else {
                        assert(now[i] == dates@[i]);
                        if long.contains(i as usize) {
                            let q = choose|q: int| 0 <= q < long.len() && long[q] == i as usize;
                            assert(q < k);
                            assert(short[q] == i as usize);
                        }
                        if short.contains(i as usize) {
                            let q = choose|q: int| 0 <= q < short.len() && short[q] == i as usize;
                            assert(long[q] == i as usize);
                        }
                    }
                }
            }
            k += 1;
        }
        proof {
            assert(group.members@.take(k as int) =~= group.members@);
            assert forall|i: int|
                0 <= i < n && #[trigger] in_first(groups@, g + 1, i) implies days(dates@)[i]
                == primary_day(photos@, i) by {
                if group.members@.contains(i as usize) {
                    assert(dates@[i] == date);
                    assert(key_at(photos@, i) == group_key(photos@, *group));
                } else {
                    let h = choose|h: int|
                        0 <= h < g + 1 && h < groups@.len() && (
                        #[trigger] groups@[h]).members@.contains(i as usize);
                    assert(h < g);
                    assert(in_first(groups@, g as int, i));
                    assert(dates@[i] == before[i]);
                    assert(days(before)[i] == primary_day(photos@, i));
                }
            }
        }
        g += 1;
    }
    proof {
        assert forall|i: int| 0 <= i < n implies days(dates@)[i] == primary_day(photos@, i) by {
            assert(is_grouped(groups@, i));
            assert(in_first(groups@, g as int, i));
        }
        assert(days(dates@) =~= counted_days(photos@));
    }
    dates
}

/// What is planned: the photos, how, and what was known at the start.
pub struct Job {
    pub photos: Seq<PhotoMetadata>,
    pub groups: Seq<CompanionGroup>,
    pub opts: Options,
    pub done: Map<Seq<char>, Seq<char>>,
    pub index: Seq<(u64, Seq<char>)>,
    pub atlas: Option<Atlas>,
}

/// The photo that the `g`th group takes its date and its place from.
pub open spec fn primary_at(job: Job, g: int) -> PhotoMetadata {
    job.photos[job.groups[g].primary as int]
}

/// Whether the `g`th group is worth moving.
pub open spec fn ships(job: Job, g: int) -> bool {
    carries_media(job.photos, group_key(job.photos, job.groups[g]), job.opts.include_video)
}

/// The point to be looked up for the `g`th group.
pub open spec fn point_of(job: Job, g: int) -> Option<Gps> {
    if ships(job, g) && uses_place(job.opts) && job.atlas is Some {
        primary_at(job, g).gps
    } else {
        None
    }
}

/// An atlas after a lookup: what is known of the cell stays, and otherwise the
/// place nearest to the point stands for the whole cell.
pub open spec fn looked_up(w: World, atlas: Atlas, g: Gps) -> Atlas {
    Atlas {
        depth: atlas.depth,
        cells: atlas.cells.insert(
            cell_key(g),
            if atlas.cells.dom().contains(cell_key(g)) {
                atlas.cells[cell_key(g)]
            } else {
                resolved((w.nearest)(g), atlas.depth)
            },
        ),
    }
}

/// The atlas after the lookups of the first `n` groups.
pub open spec fn atlas_after(w: World, job: Job, n: int) -> Option<Atlas>
    decreases n,
{
    if n <= 0 {
        job.atlas
    } else {
        let before = atlas_after(w, job, n - 1);
        match (before, point_of(job, n - 1)) {
            (Some(atlas), Some(point)) => Some(looked_up(w, atlas, point)),
            _ => before,
        }
    }
}

/// Where the photos of the `g`th group were taken.
pub open spec fn place_for(w: World, job: Job, g: int) -> Option<PlaceNames> {
    match (atlas_after(w, job, g), point_of(job, g)) {
        (Some(atlas), Some(point)) => looked_up(w, atlas, point).cells[cell_key(point)],
        _ => None,
    }
}

/// What the directory of the `g`th group is rendered from: every member takes
/// the primary's date and place, which is what keeps a Live Photo pair together.
pub open spec fn subject_for(w: World, job: Job, g: int) -> Subject {
    let primary = primary_at(job, g);
    Subject {
        date: day_of(primary.taken),
        location: place_for(w, job, g),
        camera_make: text_view(primary.camera_make),
        camera_model: text_view(primary.camera_model),
    }
}

pub open spec fn level_for(job: Job, g: int) -> Level {
    if is_adaptive(job.opts) {
        level_of(
            counted_days(job.photos),
            day_of(primary_at(job, g).taken),
            job.opts.adaptive_threshold as nat,
        )
    } else {
        Level::Year
    }
}

/// The directory of the `g`th group.
pub open spec fn dir_for(w: World, job: Job, g: int) -> Seq<char> {
    joined(rendered(segments_for(job.opts, level_for(job, g)), subject_for(w, job, g)))
}

/// The group of a photo.
pub open spec fn group_at(job: Job, i: int) -> int {
    choose|g: int|
        0 <= g < job.groups.len() && (#[trigger] job.groups[g]).members@.contains(i as usize)
}

/// The directory of a photo; none for a photo that is not worth moving.
pub open spec fn dir_of_photo(w: World, job: Job, i: int) -> Option<Seq<char>> {
    if ships(job, group_at(job, i)) {
        Some(dir_for(w, job, group_at(job, i)))
    } else {
        None
    }
}

/// The operations for the first `n` photos, in source order, and what is
/// remembered of them.
#[verifier::ext_equal]
pub struct Progress {
    pub ops: Seq<Op>,
    pub state: PlanState,
}

pub open spec fn progress(w: World, job: Job, n: int) -> Progress
    decreases n,
{
    if n <= 0 {
        Progress {
            ops: seq![],
            state: PlanState { reserved: Set::empty(), twins: seq![] },
        }
    } else {
        let before = progress(w, job, n - 1);
        match dir_of_photo(w, job, n - 1) {
            None => before,
            Some(dir) => {
                let next = plan_photo(
                    w,
                    job.opts,
                    job.done,
                    job.index,
                    job.photos[n - 1],
                    dir,
                    before.state,
                );
                Progress { ops: before.ops.push(next.op), state: next.state }
            },
        }
    }
}

/// The plan for a job in a world.
pub open spec fn plan_of(w: World, job: Job) -> Seq<Op> {
    progress(w, job, job.photos.len() as int).ops
}

/// The bytes of the first `n` photos.
pub open spec fn size_sum(photos: Seq<PhotoMetadata>, n: int) -> nat
    decreases n,
{
    if n <= 0 {
        0
    } else {
        size_sum(photos, n - 1) + photos[n - 1].size as nat
    }
}

/// Where the built operations live. Small plans stay resident; large ones go
/// to a temp file so peak RSS does not track the file count.
#[derive(Debug)]
pub enum Ops {
    Memory(Vec<Operation>),
    Spilled(Spill),
}

impl Ops {
    /// How many operations there are.
    pub open spec fn count(&self) -> nat {
        match self {
            Ops::Memory(ops) => ops@.len(),
            Ops::Spilled(spill) => spill.held(),
        }
    }

    pub fn len(&self) -> (n: usize)
        ensures
            n == self.count(),
    {
        match self {
            Ops::Memory(ops) => ops.len(),
            Ops::Spilled(spill) => spill.len(),
        }
    }

    pub fn is_empty(&self) -> (b: bool)
        ensures
            b == (self.count() == 0),
    {
        self.len() == 0
    }

    /// The operations as a slice, or `None` once the plan has been spilled,
    /// which only happens above `spill::THRESHOLD` photos, where the caller has to
    /// stream the plan back instead of borrowing it.
    pub fn resident(&self) -> (r: Option<&[Operation]>)
        ensures
            match r {
                Some(ops) => self matches Ops::Memory(v) && ops@ == v@,
                None => self is Spilled,
            },
    {
        match self {
            Ops::Memory(ops) => Some(ops.as_slice()),
            Ops::Spilled(_) => None,
        }
    }
}

#[derive(Debug)]
pub struct OperationPlan {
    pub source_root: String,
    pub dest_root: String,
    pub mode: Mode,
    pub ops: Ops,
    pub stats: PlanStats,
}

/// The places of the operations that touch the filesystem, in order.
pub open spec fn pending_places(ops: Seq<Operation>) -> Seq<int>
    decreases ops.len(),
{
    if ops.len() == 0 {
        seq![]
    } else if ops.last().action.pending() {
        pending_places(ops.drop_last()).push(ops.len() - 1)
    } else {
        pending_places(ops.drop_last())
    }
}

impl OperationPlan {
    /// Operations that will touch the filesystem, by their place in the plan, or
    /// `None` for a spilled plan.
    pub fn pending(&self) -> (r: Option<Vec<usize>>)
        ensures
            match r {
                Some(v) => self.ops matches Ops::Memory(ops) && v@.map_values(|i: usize| i as int)
                    == pending_places(ops@),
                None => self.ops is Spilled,
            },
    {
        let ops = match &self.ops {
            Ops::Memory(ops) => ops,
            Ops::Spilled(_) => {
                return None;
            },
        };
        let mut out: Vec<usize> = Vec::new();
        let mut i: usize = 0;
        assert(out@.map_values(|i: usize| i as int) =~= pending_places(ops@.take(0)));
        while i < ops.len()
            invariant
                i <= ops@.len(),
                out@.map_values(|i: usize| i as int) == pending_places(ops@.take(i as int)),
            decreases ops@.len() - i,
        {
            let ghost before = out@.map_values(|i: usize| i as int);
            assert(ops@.take(i + 1).drop_last() =~= ops@.take(i as int));
            if ops[i].action.is_pending() {
                out.push(i);
                assert(out@.map_values(|i: usize| i as int) =~= before.push(i as int));
            }
            i += 1;
        }
        assert(ops@.take(i as int) =~= ops@);
        Some(out)
    }

    pub fn source_abs(&self, op: &Operation) -> (r: String)
        ensures
            r@ == under(self.source_root@, op.source_rel@),
    {
        join(self.source_root.as_str(), op.source_rel.as_str())
    }

    pub fn dest_abs(&self, op: &Operation) -> (r: Option<String>)
        ensures
            match r {
                Some(t) => op@.dest matches Some(d) && t@ == under(self.dest_root@, d),
                None => op@.dest is None,
            },
    {
        match &op.dest_rel {
            Some(d) => Some(join(self.dest_root.as_str(), d.as_str())),
            None => None,
        }
    }
}

#[derive(Debug, Clone, Copy, PartialEq, Eq, Structural)]
pub struct PlanStats {
    pub groups: usize,
    pub pending: usize,
    pub duplicates: usize,
    pub skipped_existing: usize,
    pub renamed: usize,
    pub resumed: usize,
    /// Sidecars with no media, photos in name only and, without
    /// `--include-video`, standalone video.
    pub unshippable: usize,
    pub pending_bytes: u64,
}

impl Default for PlanStats {
    fn default() -> (r: PlanStats)
        ensures
            r == (PlanStats {
                groups: 0,
                pending: 0,
                duplicates: 0,
                skipped_existing: 0,
                renamed: 0,
                resumed: 0,
                unshippable: 0,
                pending_bytes: 0,
            }),
    {
        PlanStats {
            groups: 0,
            pending: 0,
            duplicates: 0,
            skipped_existing: 0,
            renamed: 0,
            resumed: 0,
            unshippable: 0,
            pending_bytes: 0,
        }
    }
}

/// How many operations there are of each outcome.
pub struct Tally {
    pub pending: nat,
    pub duplicates: nat,
    pub skipped_existing: nat,
    pub renamed: nat,
    pub resumed: nat,
    pub pending_bytes: nat,
}

pub open spec fn one_if(b: bool) -> nat {
    if b {
        1
    } else {
        0
    }
}

pub open spec fn tally(ops: Seq<Op>) -> Tally
    decreases ops.len(),
{
    if ops.len() == 0 {
        Tally {
            pending: 0,
            duplicates: 0,
            skipped_existing: 0,
            renamed: 0,
            resumed: 0,
            pending_bytes: 0,
        }
    } else {
        let t = tally(ops.drop_last());
        let op = ops.last();
        Tally {
            pending: t.pending + one_if(op.action.pending()),
            duplicates: t.duplicates + one_if(
                op.reason is DuplicateOfDestination || op.reason is DuplicateOfSource,
            ),
            skipped_existing: t.skipped_existing + one_if(op.reason is ExistingFile),
            renamed: t.renamed + one_if(op.reason is Renamed),
            resumed: t.resumed + one_if(op.reason is AlreadyDone),
            pending_bytes: t.pending_bytes + (if op.action.pending() {
                op.bytes as nat
            } else {
                0
            }),
        }
    }
}

impl PlanStats {
    /// Whether the numbers are those of the operations.
    pub open spec fn counts(self, ops: Seq<Op>) -> bool {
        let t = tally(ops);
        &&& self.pending == t.pending
        &&& self.duplicates == t.duplicates
        &&& self.skipped_existing == t.skipped_existing
        &&& self.renamed == t.renamed
        &&& self.resumed == t.resumed
        &&& self.pending_bytes == t.pending_bytes
    }

    /// Adds an operation to the numbers.
    fn count(&mut self, op: &Operation, Ghost(ops): Ghost<Seq<Op>>)
        requires
            old(self).counts(ops),
            ops.len() < usize::MAX,
            tally(ops).pending_bytes + op.bytes <= u64::MAX,
        ensures
            final(self).counts(ops.push(op@)),
            final(self).groups == old(self).groups,
            final(self).unshippable == old(self).unshippable,
    {
        proof {
            lemma_tally_bounded(ops);
            assert(ops.push(op@).drop_last() =~= ops);
        }
        match op.reason {
            Reason::DuplicateOfDestination | Reason::DuplicateOfSource => {
                self.duplicates += 1;
            },
            Reason::ExistingFile => {
                self.skipped_existing += 1;
            },
            Reason::Renamed => {
                self.renamed += 1;
            },
            Reason::AlreadyDone => {
                self.resumed += 1;
            },
            Reason::Planned => {},
        }
        if op.action.is_pending() {
            self.pending += 1;
            self.pending_bytes += op.bytes;
        }
    }
}

proof fn lemma_tally_bounded(ops: Seq<Op>)
    ensures
        tally(ops).pending <= ops.len(),
        tally(ops).duplicates <= ops.len(),
        tally(ops).skipped_existing <= ops.len(),
        tally(ops).renamed <= ops.len(),
        tally(ops).resumed <= ops.len(),
    decreases ops.len(),
{
    if ops.len() > 0 {
        lemma_tally_bounded(ops.drop_last());
    }
}

proof fn lemma_size_sum(photos: Seq<PhotoMetadata>, a: int, b: int)
    requires
        a <= b,
    ensures
        size_sum(photos, a) <= size_sum(photos, b),
    decreases b - a,
{
    if a < b && b > 0 {
        lemma_size_sum(photos, a, b - 1);
    }
}

/// Whether planning cannot go past the `i`th photo: there is no name for it.
pub open spec fn stuck_at(w: World, job: Job, i: int) -> bool {
    &&& 0 <= i < job.photos.len()
    &&& dir_of_photo(w, job, i) matches Some(dir) && nowhere_to_go(
        w,
        job.opts,
        job.done,
        job.index,
        job.photos[i],
        dir,
        progress(w, job, i).state,
    )
}

/// Whether there is a name for every photo that has to get a number.
pub open spec fn has_room(w: World, job: Job) -> bool {
    forall|i: int| !#[trigger] stuck_at(w, job, i)
}

/// Whether a question is about the `i`th photo: about a path that it could get, or
/// about the bytes of a file that it could be a duplicate of.
pub open spec fn concerns(q: Query, w: World, job: Job, i: int) -> bool {
    &&& 0 <= i < job.photos.len()
    &&& match q {
        Query::Exists(p) => dir_of_photo(w, job, i) matches Some(dir) && is_choice(
            p@,
            job.opts.dest@,
            wanted_path(job.photos[i], dir),
        ),
        Query::Hash(h) => asks_of_contents(
            h,
            job.opts,
            job.index,
            progress(w, job, i).state.twins,
            job.photos[i],
        ),
        Query::Nearest(_) => false,
    }
}

/// What planning says when it is asked to go on.
#[derive(Debug)]
pub enum Step {
    /// It has to know this first.
    Need(Query),
    /// The next operation of the plan.
    Planned(Operation),
    /// The plan is complete.
    Finished,
    /// Every name that the next photo could get is taken.
    NoFreeName,
}

/// How deep places are named, where the template names them at all. A template that
/// was given overrides `--location`: whatever it names is looked up.
pub fn wanted_depth(opts: &Options) -> (r: Result<Option<LocationDepth>, TemplateError>)
    ensures
        match r {
            Ok(d) => parsed(opts.expansion(opts.group.preset())) matches Ok(segs) && d == (
            if !names_places(segs) {
                None
            } else if opts.template is Some {
                Some(LocationDepth::City)
            } else {
                opts.location
            }),
            Err(e) => parsed(opts.expansion(opts.group.preset())) == Err::<Seq<Seq<Token>>, Flaw>(
                e@,
            ),
        },
{
    match opts.build_template(opts.group) {
        Err(e) => Err(e),
        Ok(template) => {
            let uses_location = template.uses_location();
            assert(uses_location == names_places(template@));
            if !uses_location {
                Ok(None)
            } else if opts.template.is_some() {
                Ok(Some(LocationDepth::City))
            } else {
                Ok(opts.location)
            }
        },
    }
}

/// Builds the plan, one operation at a time.
pub struct Planner {
    photos: Vec<PhotoMetadata>,
    groups: Vec<CompanionGroup>,
    opts: Options,
    done: TextMap<String>,
    dest_index: SizeIndex,
    templates: Templates,
    levels: Vec<Level>,
    locator: Option<Locator>,
    found: Option<(Gps, Option<Place>)>,
    dirs: Vec<String>,
    dir_ids: TextMap<usize>,
    dir_of: Vec<Option<usize>>,
    next_group: usize,
    next: usize,
    hashes: HashCache,
    seen: TextMap<bool>,
    reserved: TextMap<()>,
    twins: Twins,
    stats: PlanStats,
    atlas: Ghost<Option<Atlas>>,
    worlds: Ghost<Set<World>>,
    emitted: Ghost<Seq<Op>>,
}

pub open spec fn atlas_view(l: Option<Locator>) -> Option<Atlas> {
    match l {
        Some(l) => Some(l@),
        None => None,
    }
}

/// The place that was told is the nearest one in the world.
spec fn found_agrees(found: Option<(Gps, Option<Place>)>, w: World) -> bool {
    match found {
        Some((point, place)) => (w.nearest)(point) == found_view(place),
        None => true,
    }
}

impl Planner {
    /// What is planned.
    pub closed spec fn job(self) -> Job {
        Job {
            photos: self.photos@,
            groups: self.groups@,
            opts: self.opts,
            done: done_view(self.done@),
            index: self.dest_index@,
            atlas: self.atlas@,
        }
    }

    /// Whether every answer that was given is true of the world.
    pub closed spec fn possible(self, w: World) -> bool {
        self.worlds@.contains(w)
    }

    /// The operations so far.
    pub closed spec fn ops(self) -> Seq<Op> {
        self.emitted@
    }

    /// How many photos are planned or passed over.
    pub closed spec fn passed(self) -> nat {
        self.next as nat
    }

    /// How many groups have been given a directory or passed over.
    pub closed spec fn located(self) -> nat {
        self.next_group as nat
    }

    /// Whether there is cause to ask: the question is about the place of the next
    /// group, and that ships, or about the next photo.
    pub open spec fn has_cause_for(self, q: Query) -> bool {
        match q {
            Query::Nearest(point) => {
                let g = self.located() as int;
                &&& g < self.job().groups.len()
                &&& ships(self.job(), g)
                &&& uses_place(self.job().opts)
                &&& primary_at(self.job(), g).gps == Some(point)
            },
            _ => forall|w: World| #[trigger]
                self.possible(w) ==> concerns(q, w, self.job(), self.passed() as int),
        }
    }

    /// Whether there is no name for the `i`th photo in any world that is possible.
    pub open spec fn is_stuck_at(self, i: int) -> bool {
        forall|w: World| #[trigger] self.possible(w) ==> stuck_at(w, self.job(), i)
    }

    /// Whether the answer is at hand.
    pub closed spec fn answered(self, q: Query) -> bool {
        match q {
            Query::Exists(p) => self.seen@.dom().contains(p@),
            Query::Hash(h) => self.hashes.knows(h),
            Query::Nearest(g) => {
                ||| self.found matches Some((point, _)) && point == g
                ||| atlas_view(self.locator) matches Some(atlas) && atlas.cells.dom().contains(
                    cell_key(g),
                )
            },
        }
    }

    /// Whether every answer that was at hand before is still at hand.
    pub open spec fn retains(self, before: Planner) -> bool {
        forall|q: Query| #[trigger] before.answered(q) ==> self.answered(q)
    }

    spec fn dir_text(self, i: int) -> Option<Seq<char>> {
        match self.dir_of@[i] {
            Some(id) => Some(self.dirs@[id as int]@),
            None => None,
        }
    }

    /// What is remembered is true of the world, and what was decided is what the
    /// plan for that world says.
    spec fn holds(self, w: World) -> bool {
        &&& self.hashes.agrees(w.contents)
        &&& seen_agrees(self.seen@, w)
        &&& found_agrees(self.found, w)
        &&& atlas_view(self.locator) == atlas_after(w, self.job(), self.next_group as int)
        &&& forall|i: int|
            0 <= i < self.photos@.len() && #[trigger] in_first(
                self.groups@,
                self.next_group as int,
                i,
            ) ==> self.dir_text(i) == dir_of_photo(w, self.job(), i)
        &&& self.twins.agrees(self.opts.source@, w.contents)
        &&& progress(w, self.job(), self.next as int) == (Progress {
            ops: self.emitted@,
            state: PlanState { reserved: self.reserved@.dom(), twins: self.twins@ },
        })
        &&& forall|i: int| i < self.next ==> !#[trigger] stuck_at(w, self.job(), i)
    }

    /// The parts fit together.
    pub closed spec fn wf(self) -> bool {
        &&& companion::is_grouping(self.photos@, self.groups@)
        &&& self.templates.wf(self.opts)
        &&& self.dest_index.wf()
        &&& self.hashes.within_limit()
        &&& self.twins.wf()
        &&& self.photos@.len() <= usize::MAX
        &&& size_sum(self.photos@, self.photos@.len() as int) <= u64::MAX
        &&& is_adaptive(self.opts) ==> self.levels@.len() == self.photos@.len() && forall|i: int|
            0 <= i < self.levels@.len() ==> #[trigger] self.levels@[i] == level_of(
                counted_days(self.photos@),
                counted_days(self.photos@)[i],
                self.opts.adaptive_threshold as nat,
            )
        &&& self.next_group <= self.groups@.len()
        &&& self.next <= self.photos@.len()
        &&& self.next > 0 ==> self.next_group == self.groups@.len()
        &&& self.dir_of@.len() == self.photos@.len()
        &&& forall|i: int|
            0 <= i < self.dir_of@.len() && !#[trigger] in_first(
                self.groups@,
                self.next_group as int,
                i,
            ) ==> self.dir_of@[i] is None
        &&& forall|i: int|
            0 <= i < self.dir_of@.len() ==> (#[trigger] self.dir_of@[i] matches Some(id) ==> id
                < self.dirs@.len())
        &&& forall|t: Seq<char>|
            self.dir_ids@.dom().contains(t) ==> #[trigger] self.dir_ids@[t] < self.dirs@.len()
                && self.dirs@[self.dir_ids@[t] as int]@ == t
        &&& self.emitted@.len() <= self.next
        &&& self.stats.counts(self.emitted@)
        &&& self.stats.groups == self.groups@.len()
        &&& self.stats.unshippable == self.next - self.emitted@.len()
        &&& tally(self.emitted@).pending_bytes <= size_sum(self.photos@, self.next as int)
        &&& forall|w: World| #[trigger] self.worlds@.contains(w) ==> self.holds(w)
    }

    /// The numbers of the plan so far.
    pub fn stats(&self) -> (r: PlanStats)
        requires
            self.wf(),
        ensures
            r.counts(self.ops()),
            r.groups == self.job().groups.len(),
            r.unshippable == self.passed() - self.ops().len(),
    {
        self.stats
    }
}

/// Whether a question is asked on the way from one planner to another: the answer was
/// not at hand, and nothing that was at hand is forgotten.
pub open spec fn asks(a: Planner, q: Query, b: Planner) -> bool {
    &&& b.job() == a.job()
    &&& b.ops() == a.ops()
    &&& b.passed() >= a.passed()
    &&& b.located() >= a.located()
    &&& forall|w: World| #[trigger] b.possible(w) == a.possible(w)
    &&& !a.answered(q)
    &&& !b.answered(q)
    &&& b.has_cause_for(q)
    &&& b.retains(a)
}

/// Whether two questions ask the same.
pub open spec fn same_question(q: Query, o: Query) -> bool {
    match (q, o) {
        (Query::Exists(p), Query::Exists(r)) => p@ == r@,
        (
            Query::Hash(HashQuery::Partial { path: p, size: s }),
            Query::Hash(HashQuery::Partial { path: r, size: t }),
        ) => p@ == r@ && s == t,
        (Query::Hash(HashQuery::Full { path: p }), Query::Hash(HashQuery::Full { path: r })) => p@
            == r@,
        (Query::Nearest(a), Query::Nearest(b)) => a == b,
        _ => false,
    }
}

impl Planner {
    /// An answer is at hand for every question that asks the same.
    pub proof fn answers_go_by_question(self, q: Query, o: Query)
        requires
            same_question(q, o),
        ensures
            self.answered(q) == self.answered(o),
    {
    }
}

/// Whether an answer takes the place of another one: only the place that was told last
/// is held, and one sampled hash of a file.
pub open spec fn displaces(told: Query, q: Query) -> bool {
    match (told, q) {
        (Query::Nearest(a), Query::Nearest(b)) => a != b,
        (Query::Hash(a), Query::Hash(b)) => b.is_replaced_by(a),
        _ => false,
    }
}

/// Whether the answer to a question is taken on the way from one planner to another:
/// it is at hand from then on, and nothing else changes.
pub open spec fn takes(a: Planner, q: Query, b: Planner) -> bool {
    &&& b.job() == a.job()
    &&& b.ops() == a.ops()
    &&& b.passed() == a.passed()
    &&& b.located() == a.located()
    &&& forall|w: World| #[trigger] b.possible(w) ==> a.possible(w)
    &&& b.answered(q)
    &&& forall|o: Query| #[trigger] a.answered(o) && !displaces(q, o) ==> b.answered(o)
}

/// Build the plan. `done` maps source paths already executed to where they
/// landed, so `--resume` neither re-copies nor re-reserves them incorrectly.
pub fn build(
    photos: Vec<PhotoMetadata>,
    opts: Options,
    locator: Option<Locator>,
    done: TextMap<String>,
    dest_index: SizeIndex,
) -> (r: Result<Planner, FatalError>)
    requires
        dest_index.wf(),
        size_sum(photos@, photos@.len() as int) <= u64::MAX,
    ensures
        match r {
            Ok(p) => {
                &&& p.wf()
                &&& templates_flaw(opts) is None
                &&& p.job().photos == photos@
                &&& p.job().opts == opts
                &&& p.job().done == done_view(done@)
                &&& p.job().index == dest_index@
                &&& p.job().atlas == atlas_view(locator)
                &&& companion::is_grouping(photos@, p.job().groups)
                &&& p.ops() == Seq::<Op>::empty()
                &&& p.passed() == 0
                &&& p.located() == 0
                &&& forall|w: World| p.possible(w)
            },
            Err(FatalError::Template(e)) => templates_flaw(opts) == Some(e@),
            Err(_) => false,
        },
{
    let templates = match Templates::build(&opts) {
        Ok(t) => t,
        Err(e) => {
            return Err(e);
        },
    };
    let count = photos.len();
    let groups = companion::group(&photos);
    let levels = if matches!(opts.group, Granularity::Adaptive) && opts.template.is_none() {
        let dates = group_dates(&photos, &groups);
        decide(&dates, opts.adaptive_threshold)
    } else {
        Vec::new()
    };
    let mut dir_of: Vec<Option<usize>> = Vec::new();
    let mut i: usize = 0;
    while i < count
        invariant
            i <= count,
            dir_of@.len() == i,
            forall|k: int| 0 <= k < i ==> #[trigger] dir_of@[k] is None,
        decreases count - i,
    {
        dir_of.push(None);
        i += 1;
    }
    let mut stats = PlanStats::default();
    stats.groups = groups.len();
    let atlas: Ghost<Option<Atlas>> = Ghost(atlas_view(locator));
    let p = Planner {
        photos,
        groups,
        opts,
        done,
        dest_index,
        templates,
        levels,
        locator,
        found: None,
        dirs: Vec::new(),
        dir_ids: TextMap::new(),
        dir_of,
        next_group: 0,
        next: 0,
        hashes: HashCache::new(),
        seen: TextMap::new(),
        reserved: TextMap::new(),
        twins: Twins::new(),
        stats,
        atlas,
        worlds: Ghost(Set::full()),
        emitted: Ghost(Seq::empty()),
    };
    proof {
        assert(p.reserved@.dom() =~= Set::<Seq<char>>::empty());
    }
    Ok(p)
}

impl Planner {
    /// Tells whether a path exists.
    pub fn answer_exists(&mut self, path: String, exists: bool)
        requires
            old(self).wf(),
        ensures
            final(self).wf(),
            takes(*old(self), Query::Exists(path), *final(self)),
            forall|w: World| #[trigger]
                final(self).possible(w) <==> old(self).possible(w) && (w.exists)(path@) == exists,
    {
        let ghost p = path@;
        let ghost before = *self;
        self.seen.insert(path, exists);
        self.worlds = Ghost(before.worlds@.filter(|w: World| (w.exists)(p) == exists));
        proof {
            assert(self.job() == before.job());
            assert forall|w: World| #[trigger] self.worlds@.contains(w) implies self.holds(w) by {
                assert(before.worlds@.contains(w));
                assert(before.holds(w));
                assert(seen_agrees(self.seen@, w));
            }
        }
    }

    /// Tells the hash of a file, or that it cannot be read.
    pub fn answer_hash(&mut self, q: HashQuery, digest: Option<Digest>)
        requires
            old(self).wf(),
        ensures
            final(self).wf(),
            takes(*old(self), Query::Hash(q), *final(self)),
            forall|w: World| #[trigger]
                final(self).possible(w) <==> old(self).possible(w) && q.truth(w.contents)
                    == digest_view(digest),
    {
        let ghost asked = q;
        let ghost before = *self;
        self.hashes.remember(q, digest);
        self.worlds = Ghost(
            before.worlds@.filter(|w: World| asked.truth(w.contents) == digest_view(digest)),
        );
        proof {
            assert(self.job() == before.job());
            assert forall|w: World| #[trigger] self.worlds@.contains(w) implies self.holds(w) by {
                assert(before.worlds@.contains(w));
                assert(before.holds(w));
                assert(self.hashes.agrees(w.contents));
            }
        }
    }

    /// Tells which place is nearest to a point.
    pub fn answer_nearest(&mut self, point: Gps, place: Option<Place>)
        requires
            old(self).wf(),
        ensures
            final(self).wf(),
            takes(*old(self), Query::Nearest(point), *final(self)),
            forall|w: World| #[trigger]
                final(self).possible(w) <==> old(self).possible(w) && (w.nearest)(point)
                    == found_view(place),
    {
        let ghost before = *self;
        let ghost there = found_view(place);
        self.found = Some((point, place));
        self.worlds = Ghost(before.worlds@.filter(|w: World| (w.nearest)(point) == there));
        proof {
            assert(self.job() == before.job());
            assert forall|w: World| #[trigger] self.worlds@.contains(w) implies self.holds(w) by {
                assert(before.worlds@.contains(w));
                assert(before.holds(w));
            }
        }
    }
}

/// What a lookup comes to.
struct Located {
    locator: Option<Locator>,
    found: Option<(Gps, Option<Place>)>,
    location: Option<Location>,
    query: Option<Query>,
}

/// The point that a place was told for.
spec fn told_point(found: Option<(Gps, Option<Place>)>) -> Option<Gps> {
    match found {
        Some((g, _)) => Some(g),
        None => None,
    }
}

/// Whether the cell of a point is known.
spec fn is_known(locator: Option<Locator>, g: Gps) -> bool {
    atlas_view(locator) matches Some(atlas) && atlas.cells.dom().contains(cell_key(g))
}

/// Looks a point up, if there is one and if places are wanted.
fn locate(
    locator: Option<Locator>,
    found: Option<(Gps, Option<Place>)>,
    point: Option<Gps>,
) -> (r: Located)
    ensures
        match (atlas_view(locator), point) {
            (Some(atlas), Some(point)) => match r.query {
                Some(q) => atlas_view(r.locator) == Some(atlas) && q == Query::Nearest(point)
                    && !is_known(locator, point) && told_point(found) != Some(point),
                None => forall|w: World|
                    #[trigger] found_agrees(found, w) ==> atlas_view(r.locator) == Some(
                        looked_up(w, atlas, point),
                    ) && names_view(r.location) == looked_up(w, atlas, point).cells[cell_key(
                        point,
                    )],
            },
            _ => atlas_view(r.locator) == atlas_view(locator) && r.location is None
                && r.query is None,
        },
        forall|g: Gps| #[trigger] is_known(locator, g) ==> is_known(r.locator, g),
        r.found == found || r.found is None,
        told_point(found) matches Some(g) ==> r.found == found || is_known(r.locator, g),
{
    let point = match point {
        Some(p) => p,
        None => {
            return Located { locator, found, location: None, query: None };
        },
    };
    let mut l = match locator {
        Some(l) => l,
        None => {
            return Located { locator: None, found, location: None, query: None };
        },
    };
    let ghost atlas = l@;
    let known = l.cached(&point).is_some();
    match found {
        Some((g, place)) if g == point && !known => {
            let location = l.lookup(&point, place);
            proof {
                assert forall|w: World| #[trigger] found_agrees(found, w) implies l@ == looked_up(
                    w,
                    atlas,
                    point,
                ) by {}
            }
            Located { locator: Some(l), found: None, location, query: None }
        },
        found => {
            if known {
                let location = l.lookup(&point, None);
                Located { locator: Some(l), found, location, query: None }
            } else {
                let query = Some(Query::Nearest(point));
                Located { locator: Some(l), found, location: None, query }
            }
        },
    }
}

/// The photos of a group, and no others, go to the directory.
fn assign(dir_of: &mut Vec<Option<usize>>, members: &Vec<usize>, id: usize)
    requires
        forall|k: int| 0 <= k < members@.len() ==> #[trigger] members@[k] < old(dir_of)@.len(),
    ensures
        final(dir_of)@.len() == old(dir_of)@.len(),
        forall|i: int|
            0 <= i < final(dir_of)@.len() ==> #[trigger] final(dir_of)@[i] == (
            if members@.contains(i as usize) {
                Some(id)
            } else {
                old(dir_of)@[i]
            }),
{
    let ghost before = dir_of@;
    let count = dir_of.len();
    let mut k: usize = 0;
    while k < members.len()
        invariant
            before == old(dir_of)@,
            count == before.len(),
            dir_of@.len() == count,
            forall|k: int| 0 <= k < members@.len() ==> #[trigger] members@[k] < count,
            k <= members@.len(),
            forall|i: int|
                0 <= i < count ==> #[trigger] dir_of@[i] == (if members@.take(k as int).contains(
                    i as usize,
                ) {
                    Some(id)
                } else {
                    before[i]
                }),
        decreases members@.len() - k,
    {
        let m = members[k];
        let ghost now = dir_of@;
        dir_of.set(m, Some(id));
        proof {
            let short = members@.take(k as int);
            let long = members@.take(k + 1);
            assert forall|i: int| 0 <= i < count implies #[trigger] dir_of@[i] == (
            if long.contains(i as usize) {
                Some(id)
            } else {
                before[i]
            }) by {
                if i == m {
                    assert(long[k as int] == i as usize);
                } else {
                    assert(now[i] == dir_of@[i]);
                    if long.contains(i as usize) {
                        let q = choose|q: int| 0 <= q < long.len() && long[q] == i as usize;
                        assert(q < k);
                        assert(short[q] == i as usize);
                    }
                    if short.contains(i as usize) {
                        let q = choose|q: int| 0 <= q < short.len() && short[q] == i as usize;
                        assert(long[q] == i as usize);
                    }
                }
            }
        }
        k += 1;
    }
    assert(members@.take(k as int) =~= members@);
}

/// The group of a photo is the one that holds it.
proof fn lemma_group_at(job: Job, g: int, i: int)
    requires
        job.photos.len() <= usize::MAX,
        companion::is_grouping(job.photos, job.groups),
        0 <= g < job.groups.len(),
        0 <= i < job.photos.len(),
        job.groups[g].members@.contains(i as usize),
    ensures
        group_at(job, i) == g,
{
    let h = group_at(job, i);
    assert(0 <= h < job.groups.len() && job.groups[h].members@.contains(i as usize));
    companion::companions_share_a_group(job.photos, job.groups, g, h, i, i);
}

impl Planner {
    /// Settles where the next group goes, or says what has to be known first.
    fn settle_group(&mut self) -> (r: Option<Query>)
        requires
            old(self).wf(),
            old(self).next_group < old(self).groups@.len(),
            old(self).next == 0,
        ensures
            final(self).wf(),
            final(self).job() == old(self).job(),
            final(self).ops() == old(self).ops(),
            final(self).worlds == old(self).worlds,
            final(self).next == old(self).next,
            match r {
                None => final(self).next_group == old(self).next_group + 1,
                Some(q) => final(self).next_group == old(self).next_group && !old(self).answered(q)
                    && !final(self).answered(q) && final(self).has_cause_for(q),
            },
            final(self).retains(*old(self)),
    {
        let ghost before = *self;
        let ghost job = self.job();
        let g = self.next_group;
        assert(is_group(self.photos@, self.groups@[g as int]));
        proof {
            companion::primary_is_best(
                self.photos@,
                group_key(self.photos@, self.groups@[g as int]),
                self.photos@.len() as int,
            );
        }
        if !self.groups[g].is_shippable(&self.photos, self.opts.include_video) {
            self.next_group = g + 1;
            proof {
                assert(self.job() == job);
                assert forall|i: int|
                    0 <= i < self.dir_of@.len() && !#[trigger] in_first(
                        self.groups@,
                        self.next_group as int,
                        i,
                    ) implies self.dir_of@[i] is None by {
                    lemma_in_first(self.groups@, g as int, i);
                }
                assert forall|w: World| #[trigger] self.worlds@.contains(w) implies self.holds(
                    w,
                ) by {
                    assert(before.holds(w));
                    assert forall|i: int|
                        0 <= i < self.photos@.len() && #[trigger] in_first(
                            self.groups@,
                            self.next_group as int,
                            i,
                        ) implies self.dir_text(i) == dir_of_photo(w, job, i) by {
                        lemma_in_first(self.groups@, g as int, i);
                        if self.groups@[g as int].members@.contains(i as usize) {
                            lemma_group_at(job, g as int, i);
                            lemma_not_yet(job, g as int, i);
                            assert(!in_first(self.groups@, g as int, i));
                        }
                    }
                }
            }
            return None;
        }
        let primary = &self.photos[self.groups[g].primary];
        let point = if self.templates.uses_location(Ghost(self.opts)) {
            primary.gps
        } else {
            None
        };
        let mut locator: Option<Locator> = None;
        std::mem::swap(&mut locator, &mut self.locator);
        let mut found: Option<(Gps, Option<Place>)> = None;
        std::mem::swap(&mut found, &mut self.found);
        let ghost told = found;
        let located = locate(locator, found, point);
        self.locator = located.locator;
        self.found = located.found;
        proof {
            assert(forall|w: World| #[trigger]
                found_agrees(told, w) ==> found_agrees(self.found, w));
            assert forall|q: Query| #[trigger] before.answered(q) implies self.answered(q) by {
                if let Query::Nearest(g) = q {
                    if is_known(before.locator, g) {
                        assert(is_known(self.locator, g));
                    }
                }
            }
        }
        if located.query.is_some() {
            proof {
                assert(!is_known(before.locator, point.unwrap()));
                assert(self.job() == job);
                assert forall|w: World| #[trigger] self.worlds@.contains(w) implies self.holds(
                    w,
                ) by {
                    assert(before.holds(w));
                }
                assert(ships(job, g as int));
            }
            return located.query;
        }
        let primary = &self.photos[self.groups[g].primary];
        let level = if matches!(self.opts.group, Granularity::Adaptive)
            && self.opts.template.is_none() {
            let first = self.groups[g].members[0];
            proof {
                assert(self.groups@[g as int].members@.contains(first));
                assert(counted_days(self.photos@)[first as int] == day_of(primary.taken));
            }
            self.levels[first]
        } else {
            Level::Year
        };
        assert(level == level_for(job, g as int));
        let vars = RenderVars {
            date: primary.date(),
            location: match &located.location {
                Some(l) => Some(l),
                None => None,
            },
            camera_make: match &primary.camera_make {
                Some(t) => Some(t.as_str()),
                None => None,
            },
            camera_model: match &primary.camera_model {
                Some(t) => Some(t.as_str()),
                None => None,
            },
        };
        let dir = self.templates.for_level(level, Ghost(self.opts)).render(&vars);
        let ghost text = dir@;
        proof {
            assert forall|w: World| #[trigger] before.worlds@.contains(w) implies text == dir_for(
                w,
                job,
                g as int,
            ) && atlas_view(self.locator) == atlas_after(w, job, g + 1) by {
                assert(before.holds(w));
                assert(found_agrees(told, w));
                lemma_atlas_stays(w, job, g as int);
                assert(vars@.location == place_for(w, job, g as int));
                assert(vars@ == subject_for(w, job, g as int));
            }
        }
        let id: usize = match self.dir_ids.get(dir.as_str()) {
            Some(id) => *id,
            None => self.dirs.len(),
        };
        if id == self.dirs.len() {
            self.dirs.push(dir.clone());
            self.dir_ids.insert(dir, id);
        }
        let ghost old_dirs = before.dirs@;
        assert(self.dirs@[id as int]@ == text);
        assert(forall|k: int| 0 <= k < old_dirs.len() ==> #[trigger] self.dirs@[k] == old_dirs[k]);
        assign(&mut self.dir_of, &self.groups[g].members, id);
        self.next_group = g + 1;
        proof {
            assert(self.job() == job);
            let members = self.groups@[g as int].members@;
            assert forall|i: int|
                0 <= i < self.dir_of@.len() && !#[trigger] in_first(
                    self.groups@,
                    self.next_group as int,
                    i,
                ) implies self.dir_of@[i] is None by {
                lemma_in_first(self.groups@, g as int, i);
            }
            assert forall|w: World| #[trigger] self.worlds@.contains(w) implies self.holds(w) by {
                assert(before.holds(w));
                assert forall|i: int|
                    0 <= i < self.photos@.len() && #[trigger] in_first(
                        self.groups@,
                        self.next_group as int,
                        i,
                    ) implies self.dir_text(i) == dir_of_photo(w, job, i) by {
                    lemma_in_first(self.groups@, g as int, i);
                    if members.contains(i as usize) {
                        lemma_group_at(job, g as int, i);
                        assert(self.dir_of@[i] == Some(id));
                    } else {
                        assert(in_first(self.groups@, g as int, i));
                        assert(self.dir_of@[i] == before.dir_of@[i]);
                        assert(before.dir_text(i) == dir_of_photo(w, job, i));
                    }
                }
            }
        }
        None
    }
}

/// Lookups neither make nor lose an atlas.
proof fn lemma_atlas_stays(w: World, job: Job, n: int)
    ensures
        atlas_after(w, job, n) is Some <==> job.atlas is Some,
    decreases n,
{
    if n > 0 {
        lemma_atlas_stays(w, job, n - 1);
    }
}

proof fn lemma_in_first(groups: Seq<CompanionGroup>, g: int, i: int)
    requires
        0 <= g < groups.len(),
    ensures
        in_first(groups, g + 1, i) <==> in_first(groups, g, i) || groups[g].members@.contains(
            i as usize,
        ),
{
    if in_first(groups, g, i) {
        let h = choose|h: int|
            0 <= h < g && h < groups.len() && (#[trigger] groups[h]).members@.contains(i as usize);
        assert(groups[h].members@.contains(i as usize));
    }
    if in_first(groups, g + 1, i) && !groups[g].members@.contains(i as usize) {
        let h = choose|h: int|
            0 <= h < g + 1 && h < groups.len() && (#[trigger] groups[h]).members@.contains(
                i as usize,
            );
        assert(h < g);
    }
}

/// A photo is in no group before its own.
proof fn lemma_not_yet(job: Job, g: int, i: int)
    requires
        job.photos.len() <= usize::MAX,
        companion::is_grouping(job.photos, job.groups),
        0 <= g < job.groups.len(),
        0 <= i < job.photos.len(),
        job.groups[g].members@.contains(i as usize),
    ensures
        !in_first(job.groups, g, i),
{
    if in_first(job.groups, g, i) {
        let h = choose|h: int|
            0 <= h < g && h < job.groups.len() && (#[trigger] job.groups[h]).members@.contains(
                i as usize,
            );
        companion::companions_share_a_group(job.photos, job.groups, g, h, i, i);
    }
}

impl Planner {
    /// Once every group is settled, so is where each photo goes.
    proof fn lemma_dir_settled(self, w: World, i: int)
        requires
            self.wf(),
            self.worlds@.contains(w),
            self.next_group == self.groups@.len(),
            0 <= i < self.photos@.len(),
        ensures
            self.dir_text(i) == dir_of_photo(w, self.job(), i),
    {
        assert(self.holds(w));
        assert(is_grouped(self.groups@, i));
        assert(in_first(self.groups@, self.next_group as int, i));
    }

    /// Passes over a photo that is not worth moving.
    fn pass_over(&mut self)
        requires
            old(self).wf(),
            old(self).next_group == old(self).groups@.len(),
            old(self).next < old(self).photos@.len(),
            old(self).dir_of@[old(self).next as int] is None,
        ensures
            final(self).wf(),
            final(self).job() == old(self).job(),
            final(self).ops() == old(self).ops(),
            final(self).worlds == old(self).worlds,
            final(self).next_group == old(self).next_group,
            final(self).next == old(self).next + 1,
            final(self).retains(*old(self)),
    {
        let ghost before = *self;
        let ghost job = self.job();
        let ghost i = self.next as int;
        self.stats.unshippable = self.stats.unshippable + 1;
        self.next = self.next + 1;
        proof {
            assert(self.job() == job);
            assert forall|w: World| #[trigger] self.worlds@.contains(w) implies self.holds(w) by {
                assert(before.holds(w));
                before.lemma_dir_settled(w, i);
                assert(before.dir_text(i) is None);
            }
            lemma_size_sum(self.photos@, i, i + 1);
        }
    }

    /// Plans the next photo, or says what has to be known first.
    fn plan_next(&mut self, id: usize) -> (r: Step)
        requires
            old(self).wf(),
            old(self).next_group == old(self).groups@.len(),
            old(self).next < old(self).photos@.len(),
            old(self).dir_of@[old(self).next as int] == Some(id),
        ensures
            final(self).wf(),
            final(self).job() == old(self).job(),
            final(self).worlds == old(self).worlds,
            final(self).next_group == old(self).next_group,
            match r {
                Step::Planned(op) => final(self).ops() == old(self).ops().push(op@)
                    && final(self).next == old(self).next + 1,
                Step::Finished => false,
                Step::Need(q) => {
                    &&& final(self).ops() == old(self).ops()
                    &&& final(self).next == old(self).next
                    &&& !final(self).answered(q)
                    &&& final(self).has_cause_for(q)
                    &&& final(self).retains(*old(self))
                },
                Step::NoFreeName => final(self).ops() == old(self).ops() && final(self).next == old(
                    self,
                ).next && final(self).is_stuck_at(final(self).next as int),
            },
    {
        let ghost before = *self;
        let ghost job = self.job();
        let ghost i = self.next as int;
        let planned = plan_one(
            &self.photos[self.next],
            self.dirs[id].as_str(),
            &self.opts,
            &self.done,
            &self.dest_index,
            &self.hashes,
            &self.seen,
            &mut self.reserved,
            &mut self.twins,
        );
        match planned {
            Err(e) => {
                proof {
                    assert(self.job() == job);
                    assert forall|w: World| #[trigger] self.worlds@.contains(w) implies self.holds(
                        w,
                    ) by {
                        assert(before.holds(w));
                        assert(before.twins.agrees(self.opts.source@, w.contents)
                            && self.hashes.agrees(w.contents));
                    }
                }
                match e {
                    Unsettled::Ask(q) => {
                        proof {
                            let dir = before.dirs@[id as int]@;
                            assert forall|w: World| #[trigger] self.possible(w) implies concerns(
                                q,
                                w,
                                job,
                                i,
                            ) by {
                                assert(before.worlds@.contains(w));
                                assert(before.holds(w));
                                before.lemma_dir_settled(w, i);
                                assert(before.dir_text(i) == Some(dir));
                            }
                        }
                        Step::Need(q)
                    },
                    Unsettled::NoFreeName => {
                        proof {
                            let dir = before.dirs@[id as int]@;
                            assert forall|w: World| #[trigger] self.possible(w) implies stuck_at(
                                w,
                                job,
                                i,
                            ) by {
                                assert(before.worlds@.contains(w));
                                assert(before.holds(w));
                                assert(seen_agrees(self.seen@, w));
                                before.lemma_dir_settled(w, i);
                                assert(before.dir_text(i) == Some(dir));
                            }
                        }
                        Step::NoFreeName
                    },
                }
            },
            Ok(op) => {
                let ghost ops = self.emitted@;
                let ghost dir = before.dirs@[id as int]@;
                proof {
                    lemma_size_sum(self.photos@, i + 1, self.photos@.len() as int);
                }
                let ghost (reserved, twins) = (self.reserved@.dom(), self.twins@);
                self.hashes.settle();
                self.seen = TextMap::new();
                self.next = self.next + 1;
                self.stats.count(&op, Ghost(ops));
                self.emitted = Ghost(ops.push(op@));
                proof {
                    assert(self.job() == job);
                    assert(ops.push(op@).drop_last() =~= ops);
                    assert forall|w: World| #[trigger] self.worlds@.contains(w) implies self.holds(
                        w,
                    ) by {
                        assert(before.holds(w));
                        assert(seen_agrees(before.seen@, w));
                        before.lemma_dir_settled(w, i);
                        assert(before.dir_text(i) == Some(dir));
                        assert(self.hashes.agrees(w.contents));
                        assert(progress(w, job, i + 1).ops =~= ops.push(op@));
                    }
                }
                Step::Planned(op)
            },
        }
    }
}

/// More photos only add operations.
pub proof fn plans_grow(w: World, job: Job, a: int, b: int)
    requires
        0 <= a <= b,
    ensures
        progress(w, job, a).ops.is_prefix_of(progress(w, job, b).ops),
    decreases b - a,
{
    if a < b {
        plans_grow(w, job, a, b - 1);
        let short = progress(w, job, b - 1).ops;
        let long = progress(w, job, b).ops;
        assert(short.is_prefix_of(long)) by {
            if long.len() > short.len() {
                assert(long.subrange(0, short.len() as int) =~= short);
            }
        }
        let head = progress(w, job, a).ops;
        assert(long.subrange(0, head.len() as int) =~= head);
    }
}

impl Planner {
    /// Goes on with the plan.
    ///
    /// The operations come in source order, and in every world in which the
    /// answers so far are true they are those of the plan for that world.
    pub fn step(&mut self) -> (r: Step)
        requires
            old(self).wf(),
        ensures
            final(self).wf(),
            final(self).job() == old(self).job(),
            forall|w: World| #[trigger] final(self).possible(w) == old(self).possible(w),
            forall|w: World| #[trigger]
                final(self).possible(w) ==> final(self).ops().is_prefix_of(
                    plan_of(w, final(self).job()),
                ),
            match r {
                Step::Planned(op) => final(self).ops() == old(self).ops().push(op@)
                    && final(self).passed() > old(self).passed(),
                Step::Need(q) => asks(*old(self), q, *final(self)),
                Step::Finished => {
                    &&& final(self).ops() == old(self).ops()
                    &&& final(self).passed() == final(self).job().photos.len()
                    &&& forall|w: World| #[trigger]
                        final(self).possible(w) ==> final(self).ops() == plan_of(
                            w,
                            final(self).job(),
                        ) && has_room(w, final(self).job())
                },
                Step::NoFreeName => final(self).ops() == old(self).ops() && exists|i: int|
                    #[trigger] final(self).is_stuck_at(i),
            },
    {
        let ghost before = *self;
        while self.next_group < self.groups.len()
            invariant
                self.wf(),
                self.job() == before.job(),
                self.ops() == before.ops(),
                self.worlds == before.worlds,
                before == *old(self),
                self.next_group >= before.next_group,
                self.retains(before),
                self.next == before.next,
                self.next_group < self.groups@.len() ==> self.next == 0,
            decreases self.groups@.len() - self.next_group,
        {
            let ghost groups = self.groups@;
            if let Some(q) = self.settle_group() {
                proof {
                    self.lemma_on_track();
                }
                return Step::Need(q);
            }
            assert(self.job().groups == groups);
        }
        while self.next < self.photos.len()
            invariant
                self.wf(),
                self.job() == before.job(),
                self.ops() == before.ops(),
                self.worlds == before.worlds,
                before == *old(self),
                self.next >= before.next,
                before.next_group <= self.groups@.len(),
                self.retains(before),
                self.next_group == self.groups@.len(),
            decreases self.photos@.len() - self.next,
        {
            let ghost photos = self.photos@;
            match self.dir_of[self.next] {
                None => {
                    self.pass_over();
                    assert(self.job().photos == photos);
                },
                Some(id) => {
                    let r = self.plan_next(id);
                    proof {
                        self.lemma_on_track();
                    }
                    return r;
                },
            }
        }
        proof {
            self.lemma_on_track();
            assert forall|w: World| #[trigger] self.possible(w) implies self.ops() == plan_of(
                w,
                self.job(),
            ) && has_room(w, self.job()) by {
                assert(self.worlds@.contains(w));
                assert(self.holds(w));
            }
        }
        Step::Finished
    }

    proof fn lemma_on_track(self)
        requires
            self.wf(),
        ensures
            forall|w: World| #[trigger]
                self.possible(w) ==> self.ops().is_prefix_of(plan_of(w, self.job())),
    {
        assert forall|w: World| #[trigger] self.possible(w) implies self.ops().is_prefix_of(
            plan_of(w, self.job()),
        ) by {
            assert(self.worlds@.contains(w));
            assert(self.holds(w));
            plans_grow(w, self.job(), self.next as int, self.photos@.len() as int);
        }
    }
}

} // verus!
