//! How one file gets to its destination: what the disk is asked to do, one thing
//! at a time, and what its answers lead to. A copy goes through a temp file in
//! the destination's directory, and a move that cannot be a rename copies first
//! and unlinks the source last.

use crate::error::FileError;
use crate::execute::{classify, crosses_devices, is_cross_device, told};
use crate::plan::Action;
use crate::sanitize::Platform;
use vstd::prelude::*;

verus! {

/// What the disk is asked to do.
#[derive(Debug, Clone, Copy, PartialEq, Eq, Structural)]
pub enum Ask {
    /// Make the directory of the destination, where it is missing.
    MakeParent,
    RenameSource,
    /// Remove what stands at the destination.
    ClearDest,
    /// Remember the temp file, for an emergency exit to unlink.
    Track,
    OpenSource,
    CreateTemp,
    CopyBytes,
    Sync,
    ReadMetadata,
    /// Give the temp file the source's modification time, where it can be had.
    SetTimes,
    /// Close the temp file and give it the source's permissions.
    SetPermissions,
    RenameTemp,
    RemoveTemp,
    Untrack,
    RemoveSource,
}

/// How far a transfer has come.
#[derive(Debug, Clone, Copy, PartialEq, Eq, Structural)]
pub enum Stage {
    Parent,
    Rename,
    Clear,
    RenameAgain,
    Track,
    Open,
    Create,
    Copy,
    Sync,
    Metadata,
    Times,
    Permissions,
    Place,
    ClearPlace,
    PlaceAgain,
    Discard,
    Untrack,
    Unlink,
    Ended,
}

pub open spec fn asked(stage: Stage) -> Option<Ask> {
    match stage {
        Stage::Parent => Some(Ask::MakeParent),
        Stage::Rename | Stage::RenameAgain => Some(Ask::RenameSource),
        Stage::Clear | Stage::ClearPlace => Some(Ask::ClearDest),
        Stage::Track => Some(Ask::Track),
        Stage::Open => Some(Ask::OpenSource),
        Stage::Create => Some(Ask::CreateTemp),
        Stage::Copy => Some(Ask::CopyBytes),
        Stage::Sync => Some(Ask::Sync),
        Stage::Metadata => Some(Ask::ReadMetadata),
        Stage::Times => Some(Ask::SetTimes),
        Stage::Permissions => Some(Ask::SetPermissions),
        Stage::Place | Stage::PlaceAgain => Some(Ask::RenameTemp),
        Stage::Discard => Some(Ask::RemoveTemp),
        Stage::Untrack => Some(Ask::Untrack),
        Stage::Unlink => Some(Ask::RemoveSource),
        Stage::Ended => None,
    }
}

/// Why the disk did not do what it was asked.
#[derive(Debug)]
pub struct Fault {
    /// Permission was denied.
    pub denied: bool,
    /// The error number of the system.
    pub code: Option<i32>,
    /// Whether something stands at the destination.
    pub occupied: bool,
    pub reason: String,
}

/// What a `Fault` stands for.
pub struct Cause {
    pub denied: bool,
    pub code: Option<i32>,
    pub occupied: bool,
    pub reason: Seq<char>,
}

impl View for Fault {
    type V = Cause;

    open spec fn view(&self) -> Cause {
        Cause {
            denied: self.denied,
            code: self.code,
            occupied: self.occupied,
            reason: self.reason@,
        }
    }
}

pub open spec fn cause_of(fault: Option<Fault>) -> Option<Cause> {
    match fault {
        Some(f) => Some(f@),
        None => None,
    }
}

/// What a `Transfer` stands for: the paths are as they are told, and `failure` is
/// the message of what went wrong, if anything did.
pub struct Progress {
    pub action: Action,
    pub platform: Platform,
    pub source: Seq<char>,
    pub parent: Seq<char>,
    pub stage: Stage,
    pub failure: Option<Seq<char>>,
}

pub open spec fn at(p: Progress, stage: Stage) -> Progress {
    Progress { stage, ..p }
}

pub open spec fn failed(p: Progress, stage: Stage, path: Seq<char>, c: Cause) -> Progress {
    Progress { stage, failure: Some(told(c.denied, path, c.reason)), ..p }
}

/// Whether a failed rename is tried again with its target removed. Windows
/// `rename` refuses to clobber; the planner already decided that overwriting
/// here is correct.
pub open spec fn clobbers(c: Cause, platform: Platform) -> bool {
    platform is Windows && c.occupied && !crosses_devices(c.code, platform)
}

/// Where a move goes on that cannot be a rename.
pub open spec fn without_rename(p: Progress, c: Cause) -> Progress {
    if crosses_devices(c.code, p.platform) {
        at(p, Stage::Track)
    } else {
        failed(p, Stage::Ended, p.source, c)
    }
}

/// On to the next stage of a copy, or to the end of its temp file.
pub open spec fn onward(p: Progress, next: Stage, cause: Option<Cause>) -> Progress {
    match cause {
        None => at(p, next),
        Some(c) => failed(p, Stage::Discard, p.source, c),
    }
}

/// What the disk's answer leads to.
pub open spec fn after(p: Progress, cause: Option<Cause>) -> Progress {
    match (p.stage, cause) {
        (Stage::Parent, None) => match p.action {
            Action::Move => at(p, Stage::Rename),
            Action::Copy | Action::Overwrite => at(p, Stage::Track),
            Action::Skip => at(p, Stage::Ended),
        },
        (Stage::Parent, Some(c)) => failed(p, Stage::Ended, p.parent, c),
        (Stage::Rename, None) => at(p, Stage::Ended),
        (Stage::Rename, Some(c)) => if clobbers(c, p.platform) {
            at(p, Stage::Clear)
        } else {
            without_rename(p, c)
        },
        (Stage::Clear, None) => at(p, Stage::RenameAgain),
        (Stage::Clear, Some(c)) => without_rename(p, c),
        (Stage::RenameAgain, None) => at(p, Stage::Ended),
        (Stage::RenameAgain, Some(c)) => without_rename(p, c),
        (Stage::Track, _) => at(p, Stage::Open),
        (Stage::Open, _) => onward(p, Stage::Create, cause),
        (Stage::Create, _) => onward(p, Stage::Copy, cause),
        (Stage::Copy, _) => onward(p, Stage::Sync, cause),
        (Stage::Sync, _) => onward(p, Stage::Metadata, cause),
        (Stage::Metadata, _) => onward(p, Stage::Times, cause),
        (Stage::Times, _) => at(p, Stage::Permissions),
        (Stage::Permissions, _) => at(p, Stage::Place),
        (Stage::Place, Some(c)) => if clobbers(c, p.platform) {
            at(p, Stage::ClearPlace)
        } else {
            onward(p, Stage::Untrack, cause)
        },
        (Stage::Place, None) => at(p, Stage::Untrack),
        (Stage::ClearPlace, _) => onward(p, Stage::PlaceAgain, cause),
        (Stage::PlaceAgain, _) => onward(p, Stage::Untrack, cause),
        (Stage::Discard, _) => at(p, Stage::Untrack),
        (Stage::Untrack, _) => if p.failure is None && p.action is Move {
            at(p, Stage::Unlink)
        } else {
            at(p, Stage::Ended)
        },
        (Stage::Unlink, None) => at(p, Stage::Ended),
        (Stage::Unlink, Some(c)) => failed(p, Stage::Ended, p.source, c),
        (Stage::Ended, _) => p,
    }
}

/// An upper bound on the answers that are still needed.
pub open spec fn left(stage: Stage) -> nat {
    match stage {
        Stage::Parent => 18,
        Stage::Rename => 17,
        Stage::Clear => 16,
        Stage::RenameAgain => 15,
        Stage::Track => 14,
        Stage::Open => 13,
        Stage::Create => 12,
        Stage::Copy => 11,
        Stage::Sync => 10,
        Stage::Metadata => 9,
        Stage::Times => 8,
        Stage::Permissions => 7,
        Stage::Place => 6,
        Stage::ClearPlace => 5,
        Stage::PlaceAgain => 4,
        Stage::Discard => 3,
        Stage::Untrack => 2,
        Stage::Unlink => 1,
        Stage::Ended => 0,
    }
}

/// One file on its way, between two requests to the disk.
#[derive(Debug)]
pub struct Transfer {
    action: Action,
    platform: Platform,
    source: String,
    parent: String,
    stage: Stage,
    failure: Option<FileError>,
}

impl View for Transfer {
    type V = Progress;

    closed spec fn view(&self) -> Progress {
        Progress {
            action: self.action,
            platform: self.platform,
            source: self.source@,
            parent: self.parent@,
            stage: self.stage,
            failure: match self.failure {
                Some(e) => Some(e.text()),
                None => None,
            },
        }
    }
}

impl Transfer {
    /// The paths are as they are told: that of the source, and that of the
    /// destination's directory.
    pub fn new(action: Action, platform: Platform, source: String, parent: String) -> (r: Transfer)
        ensures
            r@ == (Progress {
                action,
                platform,
                source: source@,
                parent: parent@,
                stage: Stage::Parent,
                failure: None,
            }),
    {
        Transfer { action, platform, source, parent, stage: Stage::Parent, failure: None }
    }

    /// What is to be done next; nothing when the transfer has ended.
    pub fn ask(&self) -> (r: Option<Ask>)
        ensures
            r == asked(self@.stage),
    {
        match self.stage {
            Stage::Parent => Some(Ask::MakeParent),
            Stage::Rename | Stage::RenameAgain => Some(Ask::RenameSource),
            Stage::Clear | Stage::ClearPlace => Some(Ask::ClearDest),
            Stage::Track => Some(Ask::Track),
            Stage::Open => Some(Ask::OpenSource),
            Stage::Create => Some(Ask::CreateTemp),
            Stage::Copy => Some(Ask::CopyBytes),
            Stage::Sync => Some(Ask::Sync),
            Stage::Metadata => Some(Ask::ReadMetadata),
            Stage::Times => Some(Ask::SetTimes),
            Stage::Permissions => Some(Ask::SetPermissions),
            Stage::Place | Stage::PlaceAgain => Some(Ask::RenameTemp),
            Stage::Discard => Some(Ask::RemoveTemp),
            Stage::Untrack => Some(Ask::Untrack),
            Stage::Unlink => Some(Ask::RemoveSource),
            Stage::Ended => None,
        }
    }

    /// Takes the disk's answer to `ask`: a fault, or none.
    pub fn answer(&mut self, fault: Option<Fault>)
        ensures
            final(self)@ == after(old(self)@, cause_of(fault)),
            old(self)@.stage is Ended || left(final(self)@.stage) < left(old(self)@.stage),
    {
        match self.stage {
            Stage::Parent => match fault {
                Some(f) => {
                    self.failure = Some(
                        classify(f.denied, self.parent.as_str(), f.reason.as_str()),
                    );
                    self.stage = Stage::Ended;
                },
                None => {
                    self.stage = match self.action {
                        Action::Move => Stage::Rename,
                        Action::Copy | Action::Overwrite => Stage::Track,
                        Action::Skip => Stage::Ended,
                    };
                },
            },
            Stage::Rename => match fault {
                Some(f) => {
                    if self.rename_over(&f) {
                        self.stage = Stage::Clear;
                    } else {
                        self.move_file(f);
                    }
                },
                None => self.stage = Stage::Ended,
            },
            Stage::Clear => match fault {
                Some(f) => self.move_file(f),
                None => self.stage = Stage::RenameAgain,
            },
            Stage::RenameAgain => match fault {
                Some(f) => self.move_file(f),
                None => self.stage = Stage::Ended,
            },
            Stage::Track => self.stage = Stage::Open,
            Stage::Open => self.copy_file(Stage::Create, fault),
            Stage::Create => self.copy_file(Stage::Copy, fault),
            Stage::Copy => self.copy_file(Stage::Sync, fault),
            Stage::Sync => self.copy_file(Stage::Metadata, fault),
            Stage::Metadata => self.copy_file(Stage::Times, fault),
            Stage::Times => self.stage = Stage::Permissions,
            Stage::Permissions => self.stage = Stage::Place,
            Stage::Place => match fault {
                Some(f) => {
                    if self.rename_over(&f) {
                        self.stage = Stage::ClearPlace;
                    } else {
                        self.copy_file(Stage::Untrack, Some(f));
                    }
                },
                None => self.stage = Stage::Untrack,
            },
            Stage::ClearPlace => self.copy_file(Stage::PlaceAgain, fault),
            Stage::PlaceAgain => self.copy_file(Stage::Untrack, fault),
            Stage::Discard => self.stage = Stage::Untrack,
            Stage::Untrack => {
                self.stage = if self.failure.is_none() && self.action == Action::Move {
                    Stage::Unlink
                } else {
                    Stage::Ended
                };
            },
            Stage::Unlink => {
                if let Some(f) = fault {
                    self.failure = Some(
                        classify(f.denied, self.source.as_str(), f.reason.as_str()),
                    );
                }
                self.stage = Stage::Ended;
            },
            Stage::Ended => {},
        }
    }

    fn rename_over(&self, f: &Fault) -> (b: bool)
        ensures
            b == clobbers(f@, self@.platform),
    {
        self.platform == Platform::Windows && f.occupied && !is_cross_device(f.code, self.platform)
    }

    /// `rename` first: instant and atomic on one filesystem. Cross-device falls
    /// back to copy, then unlinks the source *last*.
    fn move_file(&mut self, f: Fault)
        ensures
            final(self)@ == without_rename(old(self)@, f@),
    {
        if is_cross_device(f.code, self.platform) {
            self.stage = Stage::Track;
        } else {
            self.failure = Some(classify(f.denied, self.source.as_str(), f.reason.as_str()));
            self.stage = Stage::Ended;
        }
    }

    /// Copies through a temp file in the *destination* directory so it shares the
    /// filesystem and the final rename is atomic.
    fn copy_file(&mut self, next: Stage, fault: Option<Fault>)
        ensures
            final(self)@ == onward(old(self)@, next, cause_of(fault)),
    {
        match fault {
            None => self.stage = next,
            Some(f) => {
                self.failure = Some(classify(f.denied, self.source.as_str(), f.reason.as_str()));
                self.stage = Stage::Discard;
            },
        }
    }

    /// How it went.
    pub fn outcome(self) -> (r: Result<(), FileError>)
        requires
            self@.stage is Ended,
        ensures
            match r {
                Ok(_) => self@.failure is None,
                Err(e) => self@.failure == Some(e.text()),
            },
    {
        match self.failure {
            Some(e) => Err(e),
            None => Ok(()),
        }
    }
}

/// The three places that a transfer works on, whether the temp file is
/// remembered, and whether it could not be removed.
pub struct Disk {
    pub source: Option<Seq<u8>>,
    pub dest: Option<Seq<u8>>,
    pub temp: Option<Seq<u8>>,
    pub known: bool,
    pub stuck: bool,
}

/// What a request does to the disk, by whether it succeeds. A rename and a removal
/// that fail change nothing; a write that fails may leave anything in the temp
/// file.
pub open spec fn may_become(ask: Ask, ok: bool, a: Disk, b: Disk) -> bool {
    match ask {
        Ask::RenameSource => b == (if ok {
            Disk { source: None, dest: a.source, ..a }
        } else {
            a
        }),
        Ask::ClearDest => b == (if ok {
            Disk { dest: None, ..a }
        } else {
            a
        }),
        Ask::Track => b == (Disk { known: true, ..a }),
        Ask::CreateTemp => b == (Disk { temp: b.temp, ..a }) && (ok ==> b.temp == Some(
            Seq::<u8>::empty(),
        )),
        Ask::CopyBytes => b == (Disk { temp: b.temp, ..a }) && (ok ==> b.temp == a.source),
        Ask::RenameTemp => b == (if ok {
            Disk { temp: None, dest: a.temp, ..a }
        } else {
            a
        }),
        Ask::RemoveTemp => b == (if ok {
            Disk { temp: None, ..a }
        } else {
            Disk { stuck: true, ..a }
        }),
        Ask::Untrack => b == (Disk { known: false, ..a }),
        Ask::RemoveSource => b == (if ok {
            Disk { source: None, ..a }
        } else {
            a
        }),
        Ask::MakeParent | Ask::OpenSource | Ask::Sync | Ask::ReadMetadata | Ask::SetTimes
        | Ask::SetPermissions => b == a,
    }
}

/// A transfer and the disk between two requests.
pub struct Moment {
    pub progress: Progress,
    pub disk: Disk,
}

/// From one moment to the next, by the disk's answer.
pub open spec fn follows(a: Moment, cause: Option<Cause>, b: Moment) -> bool {
    &&& asked(a.progress.stage) matches Some(ask)
    &&& may_become(ask, cause is None, a.disk, b.disk)
    &&& b.progress == after(a.progress, cause)
}

/// The moments of a transfer from its start on, and the answers between them.
pub open spec fn is_history(moments: Seq<Moment>, causes: Seq<Option<Cause>>) -> bool {
    &&& moments.len() == causes.len() + 1
    &&& moments[0].progress.stage is Parent
    &&& moments[0].progress.failure is None
    &&& moments[0].disk.source is Some
    &&& moments[0].disk.temp is None
    &&& !moments[0].disk.stuck
    &&& forall|k: int|
        0 <= k < causes.len() ==> #[trigger] follows(moments[k], causes[k], moments[k + 1])
}

/// What holds of every moment of a transfer.
spec fn standing(start: Moment, now: Moment) -> bool {
    let (p, d) = (now.progress, now.disk);
    let photo = start.disk.source;
    let untouched = d.dest == start.disk.dest || p.platform is Windows && d.dest is None;
    let kept = d.source == photo;
    let gone = d.temp is None;
    &&& p.action == start.progress.action
    &&& p.platform == start.progress.platform
    &&& p.stage is Clear || p.stage is ClearPlace ==> p.platform is Windows
    &&& match p.stage {
        Stage::Parent => d == start.disk && p.failure is None,
        Stage::Rename | Stage::Clear | Stage::RenameAgain => p.action is Move && kept && untouched
            && gone && !d.stuck && p.failure is None,
        Stage::Track => kept && untouched && gone && !d.stuck && p.failure is None && !(
        p.action is Skip),
        Stage::Open | Stage::Create | Stage::Copy => kept && untouched && d.known && !d.stuck
            && p.failure is None && !(p.action is Skip),
        Stage::Sync
        | Stage::Metadata
        | Stage::Times
        | Stage::Permissions
        | Stage::Place
        | Stage::ClearPlace
        | Stage::PlaceAgain => kept && untouched && d.temp == photo && d.known && !d.stuck
            && p.failure is None && !(p.action is Skip),
        Stage::Discard => kept && untouched && d.known && p.failure is Some && !(
        p.action is Skip),
        Stage::Untrack => kept && (gone || d.stuck) && !(p.action is Skip) && (
        if p.failure is None {
            d.dest == photo && gone
        } else {
            untouched
        }),
        Stage::Unlink => kept && d.dest == photo && gone && p.failure is None && p.action is Move,
        Stage::Ended => (gone || d.stuck) && (if p.failure is Some {
            kept && (untouched || p.action is Move && d.dest == photo)
        } else {
            match p.action {
                Action::Skip => d == start.disk,
                Action::Move => d.dest == photo && d.source is None && gone,
                Action::Copy | Action::Overwrite => d.dest == photo && kept && gone,
            }
        }),
    }
}

proof fn lemma_standing(moments: Seq<Moment>, causes: Seq<Option<Cause>>, k: int)
    requires
        is_history(moments, causes),
        0 <= k < moments.len(),
    ensures
        standing(moments[0], moments[k]),
    decreases k,
{
    if k > 0 {
        lemma_standing(moments, causes, k - 1);
        assert(follows(moments[k - 1], causes[k - 1], moments[k - 1 + 1]));
    }
}

/// At every moment of a transfer the photo's bytes stand whole at its source or at
/// its destination, and the source goes only once they stand at the destination.
pub proof fn photos_are_never_lost(moments: Seq<Moment>, causes: Seq<Option<Cause>>, k: int)
    requires
        is_history(moments, causes),
        0 <= k < moments.len(),
    ensures
        ({
            let (photo, d) = (moments[0].disk.source, moments[k].disk);
            d.source == photo || d.source is None && d.dest == photo
        }),
{
    lemma_standing(moments, causes, k);
}

/// Nothing is left half-written: at every moment the destination is as it was, or
/// holds the whole photo; on Windows, where a rename does not clobber, it may also
/// be empty.
pub proof fn destinations_are_never_partial(
    moments: Seq<Moment>,
    causes: Seq<Option<Cause>>,
    k: int,
)
    requires
        is_history(moments, causes),
        0 <= k < moments.len(),
    ensures
        ({
            let (start, d) = (moments[0].disk, moments[k].disk);
            ||| d.dest == start.dest
            ||| d.dest == start.source
            ||| d.dest is None && moments[0].progress.platform is Windows
        }),
{
    lemma_standing(moments, causes, k);
}

/// A temp file that exists is remembered, so that an emergency exit can unlink it,
/// and none is left at the end; either way, unless it could not be removed.
pub proof fn temp_files_do_not_stay(moments: Seq<Moment>, causes: Seq<Option<Cause>>, k: int)
    requires
        is_history(moments, causes),
        0 <= k < moments.len(),
        !moments[k].disk.stuck,
    ensures
        moments[k].disk.temp is Some ==> moments[k].disk.known,
        moments[k].progress.stage is Ended ==> moments[k].disk.temp is None,
{
    lemma_standing(moments, causes, k);
}

/// A transfer that ends well has brought the photo to its destination, and has
/// removed the source of a move and no other. One that fails has kept the source,
/// and a copy that fails has left the destination as it was; on Windows it may
/// have been removed.
pub proof fn ended_transfers(moments: Seq<Moment>, causes: Seq<Option<Cause>>, k: int)
    requires
        is_history(moments, causes),
        0 <= k < moments.len(),
        moments[k].progress.stage is Ended,
        !(moments[k].progress.action is Skip),
    ensures
        ({
            let (start, p, d) = (moments[0].disk, moments[k].progress, moments[k].disk);
            if p.failure is None {
                &&& d.dest == start.source
                &&& d.source == (if p.action is Move {
                    None
                } else {
                    start.source
                })
            } else {
                &&& d.source == start.source
                &&& !(p.action is Move || p.platform is Windows) ==> d.dest == start.dest
            }
        }),
{
    lemma_standing(moments, causes, k);
}

/// Every transfer comes to an end.
pub proof fn transfers_end(moments: Seq<Moment>, causes: Seq<Option<Cause>>, k: int)
    requires
        is_history(moments, causes),
        0 <= k < moments.len(),
    ensures
        k + left(moments[k].progress.stage) <= left(Stage::Parent),
    decreases k,
{
    if k > 0 {
        transfers_end(moments, causes, k - 1);
        assert(follows(moments[k - 1], causes[k - 1], moments[k - 1 + 1]));
    }
}

} // verus!
