//! Pass 2: apply an `OperationPlan`. This phase decides nothing about where
//! files go: every destination and suffix was already fixed by the planner. What
//! it does decide (whether an operation is issued, with which paths, how a failure
//! is told, what is counted) stands here; the steps of one operation are those of
//! a `Transfer`, and the work on the disk stands outside.

use crate::error::FileError;
use crate::paths::{join, name_and_directory_come_apart, parent_of, parent_part, under};
use crate::plan::{Action, Operation};
use crate::sanitize::{extended, extended_path, Platform};
use crate::scan::{verdict_on, Verdict, TMP_PREFIX};
use crate::text::{chars_of, hex, hex_chars, push_all, push_text, same_text, text_of};
use vstd::prelude::*;

verus! {

#[derive(Debug, Clone, Copy, PartialEq, Eq, Structural)]
pub struct ExecStats {
    pub copied: usize,
    pub moved: usize,
    pub overwritten: usize,
    pub skipped: usize,
    pub failed: usize,
    pub bytes: u64,
    /// Ctrl-C arrived and the remaining operations were never issued.
    pub cancelled: bool,
    /// How many those were. A cancelled run's record stream stops early, so
    /// this is the only place the difference is visible.
    pub unattempted: usize,
}

impl Default for ExecStats {
    fn default() -> (r: ExecStats)
        ensures
            r == no_stats(),
    {
        ExecStats {
            copied: 0,
            moved: 0,
            overwritten: 0,
            skipped: 0,
            failed: 0,
            bytes: 0,
            cancelled: false,
            unattempted: 0,
        }
    }
}

pub open spec fn no_stats() -> ExecStats {
    ExecStats {
        copied: 0,
        moved: 0,
        overwritten: 0,
        skipped: 0,
        failed: 0,
        bytes: 0,
        cancelled: false,
        unattempted: 0,
    }
}

/// What is to be done with an operation.
#[derive(Debug, Clone, Copy, PartialEq, Eq, Structural)]
pub enum Issue {
    /// Nothing; it is reported all the same, so that a dry run and a real run
    /// emit the same record stream.
    Skip,
    /// Nothing, and nothing is reported: the run has been cancelled.
    Withhold,
    /// Nothing; it is reported as done.
    Pretend,
    /// The work.
    Perform,
}

pub open spec fn issue_of(action: Action, cancelled: bool, dry_run: bool) -> Issue {
    if !action.pending() {
        Issue::Skip
    } else if cancelled {
        Issue::Withhold
    } else if dry_run {
        Issue::Pretend
    } else {
        Issue::Perform
    }
}

/// Cancellation is polled before every operation; in-flight copies are allowed
/// to finish so nothing is left half-written.
pub fn issue(op: &Operation, cancelled: bool, dry_run: bool) -> (r: Issue)
    ensures
        r == issue_of(op.action, cancelled, dry_run),
{
    if !op.action.is_pending() {
        Issue::Skip
    } else if cancelled {
        Issue::Withhold
    } else if dry_run {
        Issue::Pretend
    } else {
        Issue::Perform
    }
}

/// How an operation ended.
#[derive(Debug, Clone, Copy, PartialEq, Eq, Structural)]
pub enum End {
    Skipped,
    Unattempted,
    Done,
    Failed,
}

/// How an operation ends; `ok` tells how the work went, where there was any.
pub open spec fn end_of(issue: Issue, ok: bool) -> End {
    match issue {
        Issue::Skip => End::Skipped,
        Issue::Withhold => End::Unattempted,
        Issue::Pretend => End::Done,
        Issue::Perform => if ok {
            End::Done
        } else {
            End::Failed
        },
    }
}

pub fn ending(issue: Issue, ok: bool) -> (r: End)
    ensures
        r == end_of(issue, ok),
{
    match issue {
        Issue::Skip => End::Skipped,
        Issue::Withhold => End::Unattempted,
        Issue::Pretend => End::Done,
        Issue::Perform => {
            if ok {
                End::Done
            } else {
                End::Failed
            }
        },
    }
}

/// The numbers as numbers without a bound.
pub struct Totals {
    pub copied: nat,
    pub moved: nat,
    pub overwritten: nat,
    pub skipped: nat,
    pub failed: nat,
    pub unattempted: nat,
    pub bytes: nat,
}

pub open spec fn one_if(b: bool) -> nat {
    if b {
        1
    } else {
        0
    }
}

/// An operation and how it ended.
pub struct Ended {
    pub action: Action,
    pub bytes: u64,
    pub end: End,
}

/// The numbers with one more operation.
pub open spec fn with_one(t: Totals, e: Ended) -> Totals {
    let done = e.end is Done;
    Totals {
        copied: t.copied + one_if(done && e.action is Copy),
        moved: t.moved + one_if(done && e.action is Move),
        overwritten: t.overwritten + one_if(done && e.action is Overwrite),
        skipped: t.skipped + one_if(e.end is Skipped || done && e.action is Skip),
        failed: t.failed + one_if(e.end is Failed),
        unattempted: t.unattempted + one_if(e.end is Unattempted),
        bytes: t.bytes + (if done {
            e.bytes as nat
        } else {
            0
        }),
    }
}

/// The numbers of operations that have ended.
pub open spec fn totals(ended: Seq<Ended>) -> Totals
    decreases ended.len(),
{
    if ended.len() == 0 {
        Totals {
            copied: 0,
            moved: 0,
            overwritten: 0,
            skipped: 0,
            failed: 0,
            unattempted: 0,
            bytes: 0,
        }
    } else {
        with_one(totals(ended.drop_last()), ended.last())
    }
}

/// How many operations the numbers stand for.
pub open spec fn settled(t: Totals) -> nat {
    t.copied + t.moved + t.overwritten + t.skipped + t.failed + t.unattempted
}

/// Every operation is counted exactly once.
pub proof fn every_operation_is_counted_once(ended: Seq<Ended>)
    ensures
        settled(totals(ended)) == ended.len(),
    decreases ended.len(),
{
    if ended.len() > 0 {
        every_operation_is_counted_once(ended.drop_last());
    }
}

/// Operations end in any order when several are copied at once; the numbers do
/// not depend on it.
pub proof fn order_of_ending_does_not_matter(t: Totals, a: Ended, b: Ended)
    ensures
        with_one(with_one(t, a), b) == with_one(with_one(t, b), a),
{
}

/// A dry run ends every operation as a real run does in which nothing fails.
pub proof fn dry_runs_end_like_real_runs(action: Action, cancelled: bool)
    ensures
        end_of(issue_of(action, cancelled, true), true) == end_of(
            issue_of(action, cancelled, false),
            true,
        ),
{
}

/// The numbers with one more operation, as they are counted: the bytes wrap
/// around.
pub open spec fn stats_after(s: ExecStats, action: Action, bytes: u64, end: End) -> ExecStats {
    let done = end is Done;
    ExecStats {
        copied: (s.copied + one_if(done && action is Copy)) as usize,
        moved: (s.moved + one_if(done && action is Move)) as usize,
        overwritten: (s.overwritten + one_if(done && action is Overwrite)) as usize,
        skipped: (s.skipped + one_if(end is Skipped || done && action is Skip)) as usize,
        failed: (s.failed + one_if(end is Failed)) as usize,
        bytes: if done {
            vstd::wrapping::u64_specs::wrapping_add(s.bytes, bytes)
        } else {
            s.bytes
        },
        cancelled: s.cancelled || end is Unattempted,
        unattempted: (s.unattempted + one_if(end is Unattempted)) as usize,
    }
}

impl ExecStats {
    /// Whether these are the given numbers; the bytes wrap around.
    pub open spec fn counts(self, t: Totals) -> bool {
        &&& self.copied == t.copied
        &&& self.moved == t.moved
        &&& self.overwritten == t.overwritten
        &&& self.skipped == t.skipped
        &&& self.failed == t.failed
        &&& self.unattempted == t.unattempted
        &&& self.cancelled == (t.unattempted > 0)
        &&& self.bytes == t.bytes % 0x1_0000_0000_0000_0000
    }

    /// How many operations have been counted.
    pub open spec fn counted(self) -> int {
        self.copied + self.moved + self.overwritten + self.skipped + self.failed + self.unattempted
    }

    /// Counts an operation that has ended.
    pub fn settle(&mut self, op: &Operation, end: End)
        requires
            old(self).counted() < usize::MAX,
        ensures
            *final(self) == stats_after(*old(self), op.action, op.bytes, end),
            final(self).counted() == old(self).counted() + 1,
    {
        match end {
            End::Skipped => {
                self.skipped = self.skipped + 1;
            },
            End::Unattempted => {
                self.cancelled = true;
                self.unattempted = self.unattempted + 1;
            },
            End::Done => {
                match op.action {
                    Action::Copy => {
                        self.copied = self.copied + 1;
                    },
                    Action::Move => {
                        self.moved = self.moved + 1;
                    },
                    Action::Overwrite => {
                        self.overwritten = self.overwritten + 1;
                    },
                    Action::Skip => {
                        self.skipped = self.skipped + 1;
                    },
                }
                self.bytes = self.bytes.wrapping_add(op.bytes);
            },
            End::Failed => {
                self.failed = self.failed + 1;
            },
        }
    }

    /// Counts operations as failed that could not be read back.
    pub fn lose(&mut self, lost: usize)
        requires
            old(self).counted() + lost <= usize::MAX,
        ensures
            *final(self) == (ExecStats { failed: (old(self).failed + lost) as usize, ..*old(self) }),
    {
        self.failed = self.failed + lost;
    }
}

/// Counting one operation after the other gives the numbers of all of them.
pub proof fn counting_gives_the_totals(s: ExecStats, ended: Seq<Ended>, next: Ended)
    requires
        s.counts(totals(ended)),
        ended.len() < usize::MAX,
    ensures
        stats_after(s, next.action, next.bytes, next.end).counts(totals(ended.push(next))),
{
    assert(ended.push(next).drop_last() =~= ended);
    every_operation_is_counted_once(ended);
    let t = totals(ended);
    let m = 0x1_0000_0000_0000_0000int;
    assert((t.bytes + next.bytes) % m == (s.bytes + next.bytes) % m);
}

/// How many copies run at once; none for a run in one thread.
///
/// Copies get their own small pool: concurrent large sequential writes thrash
/// seeks on HDDs and network shares.
pub fn pool_size(copy_workers: usize, dry_run: bool) -> (r: Option<usize>)
    ensures
        r == (if dry_run || copy_workers <= 1 {
            None
        } else {
            Some(copy_workers)
        }),
{
    if dry_run || copy_workers <= 1 {
        None
    } else {
        Some(copy_workers)
    }
}

/// The paths that the work on an operation is done with.
#[derive(Debug)]
pub struct Work {
    pub source: String,
    pub dest: String,
    pub parent: String,
}

/// The directory that a destination is in.
pub open spec fn directory_of(dest: Seq<char>, root: Seq<char>) -> Seq<char> {
    if parent_of(dest).len() > 0 {
        parent_of(dest)
    } else {
        root
    }
}

/// The paths for an operation. Long-path prefixing happens here, at the last
/// moment, so everything upstream keeps working with paths a human can read.
pub fn perform(
    source_root: &str,
    dest_root: &str,
    op: &Operation,
    absolute: bool,
    platform: Platform,
) -> (r: Result<Work, FileError>)
    ensures
        match r {
            Ok(w) => op@.dest matches Some(d) && w.source@ == extended(
                under(source_root@, op@.source),
                absolute,
                platform,
            ) && w.dest@ == extended(under(dest_root@, d), absolute, platform) && w.parent@
                == extended(
                directory_of(under(dest_root@, d), dest_root@),
                absolute,
                platform,
            ),
            Err(e) => op@.dest is None && e.text() == "copy failed: "@
                + "operation has no destination"@,
        },
{
    let dest = match &op.dest_rel {
        Some(d) => join(dest_root, d.as_str()),
        None => {
            return Err(FileError::Copy("operation has no destination".to_owned()));
        },
    };
    let source = join(source_root, op.source_rel.as_str());
    let v = chars_of(dest.as_str());
    let above = parent_part(&v);
    let parent = if above.len() > 0 {
        text_of(above)
    } else {
        dest_root.to_owned()
    };
    Ok(
        Work {
            source: extended_path(source.as_str(), absolute, platform),
            dest: extended_path(dest.as_str(), absolute, platform),
            parent: extended_path(parent.as_str(), absolute, platform),
        },
    )
}

/// Whether a rename failed because it would have crossed file systems, by the
/// error number of the system.
pub open spec fn crosses_devices(code: Option<i32>, platform: Platform) -> bool {
    match platform {
        Platform::Unix => code == Some(18i32),
        Platform::Windows => code == Some(17i32),
        Platform::Other => false,
    }
}

pub fn is_cross_device(code: Option<i32>, platform: Platform) -> (b: bool)
    ensures
        b == crosses_devices(code, platform),
{
    match (platform, code) {
        (Platform::Unix, Some(n)) => n == 18,
        (Platform::Windows, Some(n)) => n == 17,
        _ => false,
    }
}

/// How a failure on the disk is told.
pub open spec fn told(denied: bool, path: Seq<char>, reason: Seq<char>) -> Seq<char> {
    if denied {
        "permission denied"@
    } else {
        "copy failed: "@ + (path + ": "@ + reason)
    }
}

pub fn classify(denied: bool, path: &str, reason: &str) -> (r: FileError)
    ensures
        r.text() == told(denied, path@, reason@),
{
    if denied {
        FileError::PermissionDenied
    } else {
        let mut v = chars_of(path);
        push_text(&mut v, ": ");
        push_text(&mut v, reason);
        FileError::Copy(text_of(&v))
    }
}

/// The name of a temp file.
pub open spec fn temp_name(nanos: u64, n: u64) -> Seq<char> {
    TMP_PREFIX@ + hex(nanos as nat) + hex(n as nat)
}

/// Where a file is copied to before it gets its name: in the *destination*
/// directory, so that it shares the filesystem and the final rename is atomic.
pub fn temp_path(dir: &str, nanos: u64, n: u64) -> (r: String)
    ensures
        r@ == under(dir@, temp_name(nanos, n)),
{
    let mut v = chars_of(TMP_PREFIX);
    push_all(&mut v, &hex_chars(nanos));
    push_all(&mut v, &hex_chars(n));
    join(dir, text_of(&v).as_str())
}

proof fn lemma_hex_has_no_slash(n: nat)
    ensures
        !hex(n).contains('/'),
    decreases n,
{
    if n >= 16 {
        lemma_hex_has_no_slash(n / 16);
        let h = hex(n);
        assert forall|i: int| 0 <= i < h.len() implies h[i] != '/' by {
            if i < h.len() - 1 {
                assert(hex(n / 16)[i] == h[i]);
            }
        }
    }
}

/// A temp file is never taken for a file of the source tree.
pub proof fn temp_files_are_never_scanned(
    dir: Seq<char>,
    nanos: u64,
    n: u64,
    include_sidecars: bool,
)
    ensures
        verdict_on(under(dir, temp_name(nanos, n)), include_sidecars) == Verdict::Ours,
{
    reveal_strlit(".po-tmp-");
    let name = temp_name(nanos, n);
    let (a, b) = (hex(nanos as nat), hex(n as nat));
    lemma_hex_has_no_slash(nanos as nat);
    lemma_hex_has_no_slash(n as nat);
    assert forall|i: int| 0 <= i < name.len() implies name[i] != '/' by {
        let k = TMP_PREFIX@.len() as int;
        if i >= k + a.len() {
            assert(name[i] == b[i - k - a.len()]);
        } else if i >= k {
            assert(name[i] == a[i - k]);
        }
    }
    name_and_directory_come_apart(dir, name);
    assert(name.take(TMP_PREFIX@.len() as int) =~= TMP_PREFIX@);
}

/// Temp files that exist right now. An emergency exit (a second Ctrl-C) runs
/// no destructors, so the paths have to be reachable from the signal handler
/// for them to be unlinked.
#[derive(Debug)]
pub struct LiveTemps {
    paths: Vec<String>,
}

impl View for LiveTemps {
    type V = Set<Seq<char>>;

    closed spec fn view(&self) -> Set<Seq<char>> {
        Set::new(|p: Seq<char>| exists|i: int| 0 <= i < self.paths@.len() && self.paths@[i]@ == p)
    }
}

impl LiveTemps {
    /// No path is held twice.
    pub closed spec fn wf(self) -> bool {
        forall|i: int, j: int|
            0 <= i < j < self.paths@.len() ==> (#[trigger] self.paths@[i])@ != (
            #[trigger] self.paths@[j])@
    }

    pub fn new() -> (r: LiveTemps)
        ensures
            r.wf(),
            r@ == Set::<Seq<char>>::empty(),
    {
        let r = LiveTemps { paths: Vec::new() };
        assert(r@ =~= Set::<Seq<char>>::empty());
        r
    }

    fn place(&self, path: &str) -> (r: Option<usize>)
        ensures
            match r {
                Some(i) => i < self.paths@.len() && self.paths@[i as int]@ == path@,
                None => forall|i: int|
                    0 <= i < self.paths@.len() ==> (#[trigger] self.paths@[i])@ != path@,
            },
    {
        let mut i: usize = 0;
        while i < self.paths.len()
            invariant
                i <= self.paths@.len(),
                forall|k: int| 0 <= k < i ==> (#[trigger] self.paths@[k])@ != path@,
            decreases self.paths@.len() - i,
        {
            if same_text(self.paths[i].as_str(), path) {
                return Some(i);
            }
            i += 1;
        }
        None
    }

    pub fn contains(&self, path: &str) -> (b: bool)
        ensures
            b == self@.contains(path@),
    {
        self.place(path).is_some()
    }

    pub fn track(&mut self, path: String)
        requires
            old(self).wf(),
        ensures
            final(self).wf(),
            final(self)@ == old(self)@.insert(path@),
    {
        let ghost before = self.paths@;
        let ghost p = path@;
        if self.place(path.as_str()).is_none() {
            self.paths.push(path);
        }
        proof {
            assert forall|q: Seq<char>| #[trigger] self@.contains(q) == old(self)@.insert(p).contains(
                q,
            ) by {
                if old(self)@.contains(q) {
                    let i = choose|i: int| 0 <= i < before.len() && before[i]@ == q;
                    assert(self.paths@[i]@ == q);
                }
                if q == p && self.paths@.len() > before.len() {
                    assert(self.paths@[before.len() as int]@ == p);
                }
            }
            assert(self@ =~= old(self)@.insert(p));
        }
    }

    pub fn untrack(&mut self, path: &str)
        requires
            old(self).wf(),
        ensures
            final(self).wf(),
            final(self)@ == old(self)@.remove(path@),
    {
        let ghost before = self.paths@;
        let ghost p = path@;
        if let Some(at) = self.place(path) {
            self.paths.remove(at);
            proof {
                let a = at as int;
                assert(self.paths@ =~= before.remove(a));
                assert forall|q: Seq<char>| #[trigger] self@.contains(q) == old(self)@.remove(
                    p,
                ).contains(q) by {
                    if self@.contains(q) {
                        let i = choose|i: int| 0 <= i < self.paths@.len() && self.paths@[i]@ == q;
                        let j: int = if i < a {
                            i
                        } else {
                            i + 1
                        };
                        assert(before[j]@ == q);
                        assert(before[a]@ != q) by {
                            if j < a {
                                assert(before[j]@ != before[a]@);
                            } else {
                                assert(before[a]@ != before[j]@);
                            }
                        }
                    }
                    if old(self)@.contains(q) && q != p {
                        let i = choose|i: int| 0 <= i < before.len() && before[i]@ == q;
                        let j: int = if i < a {
                            i
                        } else {
                            i - 1
                        };
                        assert(self.paths@[j]@ == q);
                    }
                }
                assert(self@ =~= old(self)@.remove(p));
            }
        } else {
            assert(self@ =~= old(self)@.remove(p));
        }
    }

    /// Every temp file still in flight, each once; none is in flight any more.
    pub fn cleanup_temps(&mut self) -> (r: Vec<String>)
        requires
            old(self).wf(),
        ensures
            final(self).wf(),
            final(self)@ == Set::<Seq<char>>::empty(),
            forall|p: Seq<char>| #[trigger]
                old(self)@.contains(p) <==> exists|i: int| 0 <= i < r@.len() && r@[i]@ == p,
            forall|i: int, j: int|
                0 <= i < j < r@.len() ==> (#[trigger] r@[i])@ != (#[trigger] r@[j])@,
    {
        let mut paths: Vec<String> = Vec::new();
        std::mem::swap(&mut paths, &mut self.paths);
        assert(self@ =~= Set::<Seq<char>>::empty());
        paths
    }
}

} // verus!
