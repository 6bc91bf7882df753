//! Pre-flight checks. Everything here runs before a single byte is
//! written, and every failure is fatal by design.

use crate::components::{char_views, is_within, pieces, push_names, within};
use crate::config::{Mode, OnConflict, Options};
use crate::error::FatalError;
use crate::paths::{join, name_of_path, name_part, parent_of, parent_part, under};
use crate::sanitize::Platform;
use crate::scan::TMP_PREFIX;
use crate::text::{
    begins, chars_of, copied, joined, lemma_last_index, push_all, push_text, same_text, split_any,
    starts_with, text_of,
};
use vstd::prelude::*;
use vstd::slice::slice_subrange;

verus! {

/// Whether one of two directories is in the other.
pub open spec fn overlaps(a: Seq<char>, b: Seq<char>) -> bool {
    is_within(a, b) || is_within(b, a)
}

/// It does not matter which of two directories is called the source.
pub proof fn overlap_is_symmetric(a: Seq<char>, b: Seq<char>)
    ensures
        overlaps(a, b) == overlaps(b, a),
        overlaps(a, a),
{
}

pub fn overlap(source: &str, dest: &str) -> (r: Result<(), FatalError>)
    ensures
        match r {
            Ok(()) => !overlaps(source@, dest@),
            Err(e) => overlaps(source@, dest@) && is_overlap(e, source@, dest@),
        },
{
    let s = chars_of(source);
    let d = chars_of(dest);
    if within(&d, &s) || within(&s, &d) {
        return Err(
            FatalError::Overlap { source_root: source.to_owned(), dest_root: dest.to_owned() },
        );
    }
    Ok(())
}

/// Whether an error tells that two directories overlap.
pub open spec fn is_overlap(e: FatalError, source: Seq<char>, dest: Seq<char>) -> bool {
    e matches FatalError::Overlap { source_root, dest_root } && source_root@ == source && dest_root@
        == dest
}

/// The names that are left of a path when `.` and `..` are resolved lexically.
pub open spec fn resolved(names: Seq<Seq<char>>) -> Seq<Seq<char>>
    decreases names.len(),
{
    if names.len() == 0 {
        seq![]
    } else {
        let before = resolved(names.drop_last());
        let name = names.last();
        if name.len() == 0 || name == seq!['.'] {
            before
        } else if name == seq!['.', '.'] {
            if before.len() > 0 {
                before.drop_last()
            } else {
                before
            }
        } else {
            before.push(name)
        }
    }
}

/// Lexical absolutization for a path that does not exist yet: `root` is where the
/// path starts, with its slash, and `rest` the names from there on. `..` is
/// resolved lexically; without an existing path there is no link to follow, so
/// this matches what the OS would do here.
pub fn absolute(root: &str, rest: &str) -> (r: String)
    ensures
        r@ == root@ + joined(resolved(split_any(rest@, seq!['/']))),
{
    let names = pieces(&chars_of(rest));
    let ghost all = char_views(names@);
    let mut kept: Vec<Vec<char>> = Vec::new();
    let mut i: usize = 0;
    assert(char_views(kept@) =~= resolved(all.take(0)));
    while i < names.len()
        invariant
            i <= names@.len(),
            all == char_views(names@),
            char_views(kept@) == resolved(all.take(i as int)),
        decreases names@.len() - i,
    {
        let name = &names[i];
        let ghost before = char_views(kept@);
        proof {
            assert(all.take(i + 1).drop_last() =~= all.take(i as int));
            assert(all.take(i + 1).last() == name@);
        }
        let dot = name.len() == 1 && name[0] == '.';
        let dots = name.len() == 2 && name[0] == '.' && name[1] == '.';
        assert(dot == (name@ == seq!['.'])) by {
            if dot {
                assert(name@ =~= seq!['.']);
            }
        }
        assert(dots == (name@ == seq!['.', '.'])) by {
            if dots {
                assert(name@ =~= seq!['.', '.']);
            }
        }
        if name.len() == 0 || dot {
        } else if dots {
            if kept.len() > 0 {
                kept.pop();
                assert(char_views(kept@) =~= before.drop_last());
            }
        } else {
            kept.push(copied(name));
            assert(char_views(kept@) =~= before.push(name@));
        }
        i += 1;
    }
    assert(all.take(i as int) =~= all);
    let mut out = chars_of(root);
    push_names(&mut out, &kept, 0);
    assert(char_views(kept@).skip(0) =~= char_views(kept@));
    text_of(&out)
}

/// A Windows path without its verbatim prefix.
pub open spec fn plain_of(path: Seq<char>, platform: Platform) -> Seq<char> {
    let share = seq!['\\', '\\', '?', '\\', 'U', 'N', 'C', '\\'];
    let mark = seq!['\\', '\\', '?', '\\'];
    if !(platform is Windows) {
        path
    } else if starts_with(path, share) {
        seq!['\\', '\\'] + path.skip(8)
    } else if starts_with(path, mark) {
        path.skip(4)
    } else {
        path
    }
}

/// Windows `canonicalize` always returns a verbatim path. Strip the prefix so
/// every message and record stays readable; `sanitize::extended_path` puts it
/// back on the few paths that actually need it.
pub fn plain(path: &str, platform: Platform) -> (r: String)
    ensures
        r@ == plain_of(path@, platform),
{
    let v = chars_of(path);
    if platform != Platform::Windows {
        return text_of(&v);
    }
    let share: [char; 8] = ['\\', '\\', '?', '\\', 'U', 'N', 'C', '\\'];
    let mark: [char; 4] = ['\\', '\\', '?', '\\'];
    assert(share@ =~= seq!['\\', '\\', '?', '\\', 'U', 'N', 'C', '\\']);
    assert(mark@ =~= seq!['\\', '\\', '?', '\\']);
    if begins(&v, &share) {
        let mut r: Vec<char> = Vec::new();
        r.push('\\');
        r.push('\\');
        let rest = slice_subrange(&v, 8, v.len());
        push_all(&mut r, rest);
        assert(r@ =~= plain_of(path@, platform));
        return text_of(&r);
    }
    if begins(&v, &mark) {
        let rest = slice_subrange(&v, 4, v.len());
        assert(rest@ =~= path@.skip(4));
        return text_of(rest);
    }
    text_of(&v)
}

/// The file that is written and removed to see whether a directory can be
/// written to: a read-only mount, a full quota, or a Windows ACL that metadata
/// reports nothing about all fail here instead of mid-run.
pub fn probe_path(dir: &str) -> (r: String)
    ensures
        r@ == crate::paths::under(dir@, TMP_PREFIX@ + "probe"@),
{
    let mut v = chars_of(TMP_PREFIX);
    push_text(&mut v, "probe");
    join(dir, text_of(&v).as_str())
}

/// How far the checks have come.
pub enum Stage {
    /// Is the source a directory?
    Source,
    /// Where is it, once links are followed?
    SourceRoot,
    /// Where is this part of the destination, once links are followed? The names
    /// behind it do not exist yet.
    Locate { source: String, at: String, rest: String },
    /// The destination is made; this is where it is going to be.
    Create { source: String, place: String },
    /// Where is the destination, once links are followed?
    DestRoot { source: String },
    /// Can it be written to?
    Probe { source: String, dest: String },
    Ready { source: String, dest: String },
}

/// What a `Stage` stands for.
pub enum Phase {
    Source,
    SourceRoot,
    Locate { source: Seq<char>, at: Seq<char>, rest: Seq<char> },
    Create { source: Seq<char>, place: Seq<char> },
    DestRoot { source: Seq<char> },
    Probe { source: Seq<char>, dest: Seq<char> },
    Ready { source: Seq<char>, dest: Seq<char> },
}

impl View for Stage {
    type V = Phase;

    open spec fn view(&self) -> Phase {
        match self {
            Stage::Source => Phase::Source,
            Stage::SourceRoot => Phase::SourceRoot,
            Stage::Locate { source, at, rest } => Phase::Locate {
                source: source@,
                at: at@,
                rest: rest@,
            },
            Stage::Create { source, place } => Phase::Create { source: source@, place: place@ },
            Stage::DestRoot { source } => Phase::DestRoot { source: source@ },
            Stage::Probe { source, dest } => Phase::Probe { source: source@, dest: dest@ },
            Stage::Ready { source, dest } => Phase::Ready { source: source@, dest: dest@ },
        }
    }
}

/// What the disk is asked for next.
pub enum Ask {
    IsDir(String),
    Canonical(String),
    CreateDir(String),
    /// Write and remove this file.
    Probe(String),
}

/// The checks of one run, between two questions to the disk.
pub struct Preflight {
    source: String,
    dest: String,
    absolute: String,
    dry_run: bool,
    stage: Stage,
}

/// What a `Preflight` stands for: the two roots as they were given, the
/// destination made lexically absolute, and how far the checks have come.
pub struct Checks {
    pub source: Seq<char>,
    pub dest: Seq<char>,
    pub absolute: Seq<char>,
    pub dry_run: bool,
    pub phase: Phase,
}

/// Why a run is refused.
pub enum Refusal {
    SourceUnavailable(Seq<char>),
    Unavailable { path: Seq<char>, reason: Seq<char> },
    Overlap { source: Seq<char>, dest: Seq<char> },
}

pub open spec fn tells(e: FatalError, why: Refusal) -> bool {
    match why {
        Refusal::SourceUnavailable(p) => e matches FatalError::SourceUnavailable(path) && path@
            == p,
        Refusal::Unavailable { path: p, reason } => e matches FatalError::DestinationUnavailable {
            path,
            source,
        } && path@ == p && source@ == reason,
        Refusal::Overlap { source, dest } => is_overlap(e, source, dest),
    }
}

pub open spec fn at(c: Checks, phase: Phase) -> Checks {
    Checks { phase, ..c }
}

/// Where a path is going to be: names that do not exist yet, behind a place that does.
/// They will be directories and no links, so `..` is resolved lexically.
pub open spec fn placed_at(found: Seq<char>, rest: Seq<char>) -> Seq<char> {
    let root = if found.len() > 0 && found[0] == '/' {
        seq!['/']
    } else {
        seq![]
    };
    root + joined(resolved(split_any(under(found, rest), seq!['/'])))
}

/// Once it is known where the destination is going to be, and before it is made. A dry
/// run makes nothing and takes the place as it is named, `dest`.
pub open spec fn with_place(
    c: Checks,
    source: Seq<char>,
    place: Seq<char>,
    dest: Seq<char>,
) -> std::result::Result<Checks, Refusal> {
    if overlaps(source, place) {
        Err(Refusal::Overlap { source, dest: place })
    } else if c.dry_run {
        Ok(at(c, Phase::Ready { source, dest }))
    } else {
        Ok(at(c, Phase::Create { source, place }))
    }
}

/// Once both roots are real: a symlinked destination only reveals itself after
/// canonicalization.
pub open spec fn with_roots(c: Checks, source: Seq<char>, dest: Seq<char>) -> std::result::Result<
    Checks,
    Refusal,
> {
    if overlaps(source, dest) {
        Err(Refusal::Overlap { source, dest })
    } else {
        Ok(at(c, Phase::Probe { source, dest }))
    }
}

/// What the disk's reply leads to: the answer, or the reason there is none.
pub open spec fn after(
    c: Checks,
    reply: std::result::Result<Seq<char>, Seq<char>>,
) -> std::result::Result<Checks, Refusal> {
    match (c.phase, reply) {
        (Phase::Source, Ok(_)) => Ok(at(c, Phase::SourceRoot)),
        (Phase::Source, Err(_)) => Err(Refusal::SourceUnavailable(c.source)),
        (Phase::SourceRoot, Ok(source)) => if overlaps(source, c.absolute) {
            Err(Refusal::Overlap { source, dest: c.absolute })
        } else {
            Ok(at(c, Phase::Locate { source, at: c.dest, rest: seq![] }))
        },
        (Phase::SourceRoot, Err(reason)) => Err(Refusal::Unavailable { path: c.source, reason }),
        (Phase::Locate { source, at, rest }, Ok(found)) => if at == c.dest {
            with_place(c, source, found, found)
        } else {
            with_place(c, source, placed_at(found, rest), c.absolute)
        },
        (Phase::Locate { source, at: path, rest }, Err(_)) => if parent_of(path).len() > 0 {
            Ok(
                at(
                    c,
                    Phase::Locate {
                        source,
                        at: parent_of(path),
                        rest: under(name_of_path(path), rest),
                    },
                ),
            )
        } else {
            with_place(c, source, c.absolute, c.absolute)
        },
        (Phase::Create { source, .. }, Ok(_)) => Ok(at(c, Phase::DestRoot { source })),
        (Phase::Create { .. }, Err(reason)) => Err(Refusal::Unavailable { path: c.dest, reason }),
        (Phase::DestRoot { source }, Ok(dest)) => with_roots(c, source, dest),
        (Phase::DestRoot { .. }, Err(reason)) => Err(
            Refusal::Unavailable { path: c.dest, reason },
        ),
        (Phase::Probe { source, dest }, Ok(_)) => Ok(at(c, Phase::Ready { source, dest })),
        (Phase::Probe { dest, .. }, Err(reason)) => Err(
            Refusal::Unavailable { path: dest, reason },
        ),
        (Phase::Ready { .. }, _) => Ok(c),
    }
}

/// What is settled when the checks have come this far.
pub open spec fn settled(c: Checks) -> bool {
    match c.phase {
        Phase::Source | Phase::SourceRoot => true,
        Phase::Locate { source, .. } => !overlaps(source, c.absolute),
        Phase::Create { source, place } => !c.dry_run && !overlaps(source, place),
        Phase::DestRoot { .. } => !c.dry_run,
        Phase::Probe { source, dest } => !c.dry_run && !overlaps(source, dest),
        Phase::Ready { source, dest } => !overlaps(source, dest),
    }
}

/// Whatever the disk replies: a destination is only made, and a file only written
/// to it, in a real run whose source does not overlap the place where it is going to
/// be, and checks that end well end with two roots that are apart.
pub proof fn checks_stay_settled(
    c: Checks,
    reply: std::result::Result<Seq<char>, Seq<char>>,
)
    requires
        settled(c),
    ensures
        after(c, reply) matches Ok(next) ==> settled(next),
{
}

/// An upper bound on the replies that are still needed.
pub open spec fn replies_left(c: Checks) -> nat {
    match c.phase {
        Phase::Source => c.dest.len() + 6,
        Phase::SourceRoot => c.dest.len() + 5,
        Phase::Locate { at, .. } => at.len() + 4,
        Phase::Create { .. } => 3,
        Phase::DestRoot { .. } => 2,
        Phase::Probe { .. } => 1,
        Phase::Ready { .. } => 0,
    }
}

/// Whatever the disk replies, the checks come to an end.
pub proof fn checks_end(c: Checks, reply: std::result::Result<Seq<char>, Seq<char>>)
    requires
        !(c.phase is Ready),
    ensures
        after(c, reply) matches Ok(next) ==> replies_left(next) < replies_left(c),
{
    if let Phase::Locate { at, .. } = c.phase {
        lemma_last_index(at, '/');
    }
}

/// Where the links of a disk lead: the place of a path that exists, once they are
/// followed.
pub struct Links {
    pub canonical: spec_fn(Seq<char>) -> Option<Seq<char>>,
}

/// Where the destination is going to be on a disk with these links: at the place of its
/// deepest part that exists, with the names behind it; `absolute` where no part does.
pub open spec fn leads_to(
    links: Links,
    dest: Seq<char>,
    absolute: Seq<char>,
    at: Seq<char>,
    rest: Seq<char>,
) -> Seq<char>
    decreases at.len(),
{
    match (links.canonical)(at) {
        Some(found) => if at == dest {
            found
        } else {
            placed_at(found, rest)
        },
        None => if 0 < parent_of(at).len() < at.len() {
            leads_to(links, dest, absolute, parent_of(at), under(name_of_path(at), rest))
        } else {
            absolute
        },
    }
}

/// What the checks come to when the disk has told where the destination is going to be.
pub open spec fn once_located(c: Checks, links: Links) -> std::result::Result<Checks, Refusal>
    decreases
            (match c.phase {
                Phase::Locate { at, .. } => at.len() as int,
                _ => 0,
            }),
{
    match c.phase {
        Phase::Locate { at, .. } => {
            let reply = match (links.canonical)(at) {
                Some(found) => Ok(found),
                None => Err(seq![]),
            };
            match after(c, reply) {
                Ok(next) => match next.phase {
                    Phase::Locate { at: above, .. } => if above.len() < at.len() {
                        once_located(next, links)
                    } else {
                        Ok(next)
                    },
                    _ => Ok(next),
                },
                Err(why) => Err(why),
            }
        },
        _ => Ok(c),
    }
}

proof fn lemma_located(c: Checks, links: Links)
    requires
        c.phase is Locate,
    ensures
        c.phase matches Phase::Locate { source, at: path, rest } && ({
            let place = leads_to(links, c.dest, c.absolute, path, rest);
            match once_located(c, links) {
                Err(why) => overlaps(source, place) && why == (Refusal::Overlap {
                    source,
                    dest: place,
                }),
                Ok(next) => {
                    &&& !overlaps(source, place)
                    &&& !c.dry_run ==> next == at(c, Phase::Create { source, place })
                    &&& c.dry_run ==> next.phase is Ready
                },
            }
        }),
    decreases
            (match c.phase {
                Phase::Locate { at, .. } => at.len() as int,
                _ => 0,
            }),
{
    if let Phase::Locate { source, at: path, rest } = c.phase {
        lemma_last_index(path, '/');
        if (links.canonical)(path) is None && parent_of(path).len() > 0 {
            let next = at(
                c,
                Phase::Locate {
                    source,
                    at: parent_of(path),
                    rest: under(name_of_path(path), rest),
                },
            );
            lemma_located(next, links);
        }
    }
}

/// A destination inside the source tree is refused before anything is created, also
/// where only a link leads there: once the source is known to be a directory, the next
/// thing that is made is the destination, and only where it is going to be apart from
/// the source.
pub proof fn nothing_is_made_inside_the_source(c: Checks, source: Seq<char>, links: Links)
    requires
        c.phase is SourceRoot,
        !overlaps(source, c.absolute),
    ensures
        ({
            let place = leads_to(links, c.dest, c.absolute, c.dest, seq![]);
            &&& after(c, Ok(source)) matches Ok(next) && next.phase is Locate && match once_located(
                next,
                links,
            ) {
                Err(why) => overlaps(source, place) && why == (Refusal::Overlap {
                    source,
                    dest: place,
                }),
                Ok(made) => {
                    &&& !overlaps(source, place)
                    &&& !c.dry_run ==> made == at(c, Phase::Create { source, place })
                    &&& c.dry_run ==> made.phase is Ready
                },
            }
        }),
{
    let next = at(c, Phase::Locate { source, at: c.dest, rest: seq![] });
    lemma_located(next, links);
}

fn located(found: &str, rest: &str) -> (r: String)
    ensures
        r@ == placed_at(found@, rest@),
{
    let v = chars_of(found);
    let whole = join(found, rest);
    if v.len() > 0 && v[0] == '/' {
        proof {
            reveal_strlit("/");
            assert("/"@ =~= seq!['/']);
        }
        absolute("/", whole.as_str())
    } else {
        proof {
            reveal_strlit("");
            assert(""@ =~= Seq::<char>::empty());
        }
        absolute("", whole.as_str())
    }
}

fn unavailable(path: &str, reason: String) -> (e: FatalError)
    ensures
        tells(e, Refusal::Unavailable { path: path@, reason: reason@ }),
{
    FatalError::DestinationUnavailable { path: path.to_owned(), source: reason }
}

/// The checks that come before a run. Canonicalization happens **after** symlink
/// resolution so that a symlinked destination inside the source is still caught.
/// `absolute` is the destination, made absolute lexically.
pub fn prepare(opts: &Options, absolute: String) -> (r: Result<Preflight, FatalError>)
    ensures
        match r {
            Ok(p) => {
                &&& !(opts.on_conflict is Overwrite && !opts.force)
                &&& p@ == Checks {
                    source: opts.source@,
                    dest: opts.dest@,
                    absolute: absolute@,
                    dry_run: opts.dry_run,
                    phase: Phase::Source,
                }
            },
            Err(e) => {
                &&& opts.on_conflict is Overwrite
                &&& !opts.force
                &&& e == FatalError::OverwriteWithoutForce
            },
        },
{
    if opts.on_conflict == OnConflict::Overwrite && !opts.force {
        return Err(FatalError::OverwriteWithoutForce);
    }
    Ok(
        Preflight {
            source: opts.source.as_str().to_owned(),
            dest: opts.dest.as_str().to_owned(),
            absolute,
            dry_run: opts.dry_run,
            stage: Stage::Source,
        },
    )
}

impl View for Preflight {
    type V = Checks;

    closed spec fn view(&self) -> Checks {
        Checks {
            source: self.source@,
            dest: self.dest@,
            absolute: self.absolute@,
            dry_run: self.dry_run,
            phase: self.stage@,
        }
    }
}

impl Preflight {
    #[verifier::type_invariant]
    spec fn is_settled(self) -> bool {
        settled(self@)
    }

    /// What the disk is asked for, or nothing when all is checked.
    pub fn ask(&self) -> (r: Option<Ask>)
        ensures
            settled(self@),
            match self@.phase {
                Phase::Source => r matches Some(Ask::IsDir(p)) && p@ == self@.source,
                Phase::SourceRoot => r matches Some(Ask::Canonical(p)) && p@ == self@.source,
                Phase::Locate { at, .. } => r matches Some(Ask::Canonical(p)) && p@ == at,
                Phase::Create { .. } => r matches Some(Ask::CreateDir(p)) && p@ == self@.dest,
                Phase::DestRoot { .. } => r matches Some(Ask::Canonical(p)) && p@ == self@.dest,
                Phase::Probe { dest, .. } => r matches Some(Ask::Probe(p)) && p@
                    == crate::paths::under(dest, TMP_PREFIX@ + "probe"@),
                Phase::Ready { .. } => r is None,
            },
    {
        proof {
            use_type_invariant(self);
        }
        match &self.stage {
            Stage::Source => Some(Ask::IsDir(self.source.as_str().to_owned())),
            Stage::SourceRoot => Some(Ask::Canonical(self.source.as_str().to_owned())),
            Stage::Locate { at, .. } => Some(Ask::Canonical(at.as_str().to_owned())),
            Stage::Create { .. } => Some(Ask::CreateDir(self.dest.as_str().to_owned())),
            Stage::DestRoot { .. } => Some(Ask::Canonical(self.dest.as_str().to_owned())),
            Stage::Probe { dest, .. } => Some(Ask::Probe(probe_path(dest.as_str()))),
            Stage::Ready { .. } => None,
        }
    }

    /// Where the disk's reply leads. Overlap is decided before the destination is
    /// created, with the links on the way to it followed as far as it exists: refusing
    /// the run and still leaving a new folder inside the source tree is not
    /// acceptable. A dry run against a not-yet-created destination is legitimate; it
    /// falls back to the lexically absolute path.
    pub fn reply(self, reply: Result<String, String>) -> (r: Result<Preflight, FatalError>)
        ensures
            match (r, after(
                self@,
                match reply {
                    Ok(p) => Ok(p@),
                    Err(e) => Err(e@),
                },
            )) {
                (Ok(p), Ok(c)) => p@ == c,
                (Err(e), Err(why)) => tells(e, why),
                _ => false,
            },
    {
        proof {
            use_type_invariant(&self);
        }
        let Preflight { source, dest, absolute, dry_run, stage } = self;
        let stage = match stage {
            Stage::Source => match reply {
                Ok(_) => Stage::SourceRoot,
                Err(_) => return Err(FatalError::SourceUnavailable(source)),
            },
            Stage::SourceRoot => match reply {
                Ok(root) => {
                    match overlap(root.as_str(), absolute.as_str()) {
                        Ok(()) => {},
                        Err(e) => return Err(e),
                    }
                    let at = dest.as_str().to_owned();
                    Stage::Locate { source: root, at, rest: String::new() }
                },
                Err(reason) => return Err(unavailable(source.as_str(), reason)),
            },
            Stage::Locate { source: root, at, rest } => {
                let path = chars_of(at.as_str());
                let (place, target) = match reply {
                    Ok(found) => {
                        if same_text(at.as_str(), dest.as_str()) {
                            let target = found.as_str().to_owned();
                            (found, target)
                        } else {
                            let place = located(found.as_str(), rest.as_str());
                            (place, absolute.as_str().to_owned())
                        }
                    },
                    Err(_) => {
                        let above = parent_part(&path);
                        if above.len() > 0 {
                            let behind = text_of(name_part(&path));
                            let stage = Stage::Locate {
                                source: root,
                                at: text_of(above),
                                rest: join(behind.as_str(), rest.as_str()),
                            };
                            return Ok(Preflight { source, dest, absolute, dry_run, stage });
                        }
                        (absolute.as_str().to_owned(), absolute.as_str().to_owned())
                    },
                };
                match overlap(root.as_str(), place.as_str()) {
                    Ok(()) => {},
                    Err(e) => return Err(e),
                }
                if dry_run {
                    Stage::Ready { source: root, dest: target }
                } else {
                    Stage::Create { source: root, place }
                }
            },
            Stage::Create { source: root, .. } => match reply {
                Ok(_) => Stage::DestRoot { source: root },
                Err(reason) => return Err(unavailable(dest.as_str(), reason)),
            },
            Stage::DestRoot { source: root } => {
                let target = match reply {
                    Ok(target) => target,
                    Err(reason) => return Err(unavailable(dest.as_str(), reason)),
                };
                match overlap(root.as_str(), target.as_str()) {
                    Ok(()) => {},
                    Err(e) => return Err(e),
                }
                Stage::Probe { source: root, dest: target }
            },
            Stage::Probe { source: root, dest: target } => match reply {
                Ok(_) => Stage::Ready { source: root, dest: target },
                Err(reason) => return Err(unavailable(target.as_str(), reason)),
            },
            Stage::Ready { source: root, dest: target } => Stage::Ready { source: root, dest: target },
        };
        Ok(Preflight { source, dest, absolute, dry_run, stage })
    }

    /// The canonical source and destination roots, once all is checked.
    pub fn roots(&self) -> (r: Option<(&str, &str)>)
        ensures
            match self@.phase {
                Phase::Ready { source, dest } => {
                    &&& r matches Some(roots)
                    &&& roots.0@ == source
                    &&& roots.1@ == dest
                    &&& !overlaps(source, dest)
                },
                _ => r is None,
            },
    {
        proof {
            use_type_invariant(self);
        }
        match &self.stage {
            Stage::Ready { source, dest } => Some((source.as_str(), dest.as_str())),
            _ => None,
        }
    }
}

/// Refuse to start a run that cannot possibly fit. Unknown free
/// space is not an error: an exotic filesystem should not block the tool.
pub fn check_space(available: Option<u64>, needed: u64, mode: Mode) -> (r: Result<(), FatalError>)
    ensures
        match r {
            Ok(()) => mode is Move || available is None || available.unwrap() >= needed,
            Err(e) => {
                &&& mode is Copy
                &&& available matches Some(a)
                &&& a < needed
                &&& e == (FatalError::DiskFull { needed, available: a })
            },
        },
{
    if mode == Mode::Move {
        // A same-filesystem move consumes no space, and a cross-device one is
        // bounded by the largest single file rather than the total.
        return Ok(());
    }
    match available {
        Some(available) if available < needed => Err(FatalError::DiskFull { needed, available }),
        _ => Ok(()),
    }
}

} // verus!
