//! What was given on the command line, and the options it asks for.

use crate::config::{
    DedupMode, Granularity, LocationDepth, Mode, OnConflict, Options, DEFAULT_ADAPTIVE_THRESHOLD,
    DEFAULT_COPY_WORKERS,
};
use crate::template::text_view;
use vstd::prelude::*;

verus! {

#[derive(Copy, Clone, Debug, PartialEq, Eq, Structural)]
pub enum GroupArg {
    Year,
    Month,
    Week,
    Day,
    Adaptive,
}

#[derive(Copy, Clone, Debug, PartialEq, Eq, Structural)]
pub enum DepthArg {
    Country,
    Region,
    City,
}

#[derive(Copy, Clone, Debug, PartialEq, Eq, Structural)]
pub enum ModeArg {
    Copy,
    Move,
}

#[derive(Copy, Clone, Debug, PartialEq, Eq, Structural)]
pub enum ConflictArg {
    Skip,
    Rename,
    Overwrite,
}

#[derive(Copy, Clone, Debug, PartialEq, Eq, Structural)]
pub enum DedupArg {
    Off,
    SizeHash,
}

impl GroupArg {
    pub open spec fn meaning(self) -> Granularity {
        match self {
            GroupArg::Year => Granularity::Year,
            GroupArg::Month => Granularity::Month,
            GroupArg::Week => Granularity::Week,
            GroupArg::Day => Granularity::Day,
            GroupArg::Adaptive => Granularity::Adaptive,
        }
    }

    fn granularity(self) -> (r: Granularity)
        ensures
            r == self.meaning(),
    {
        match self {
            GroupArg::Year => Granularity::Year,
            GroupArg::Month => Granularity::Month,
            GroupArg::Week => Granularity::Week,
            GroupArg::Day => Granularity::Day,
            GroupArg::Adaptive => Granularity::Adaptive,
        }
    }
}

impl DepthArg {
    pub open spec fn meaning(self) -> LocationDepth {
        match self {
            DepthArg::Country => LocationDepth::Country,
            DepthArg::Region => LocationDepth::Region,
            DepthArg::City => LocationDepth::City,
        }
    }

    fn depth(self) -> (r: LocationDepth)
        ensures
            r == self.meaning(),
    {
        match self {
            DepthArg::Country => LocationDepth::Country,
            DepthArg::Region => LocationDepth::Region,
            DepthArg::City => LocationDepth::City,
        }
    }
}

impl ModeArg {
    pub open spec fn meaning(self) -> Mode {
        match self {
            ModeArg::Copy => Mode::Copy,
            ModeArg::Move => Mode::Move,
        }
    }

    fn mode(self) -> (r: Mode)
        ensures
            r == self.meaning(),
    {
        match self {
            ModeArg::Copy => Mode::Copy,
            ModeArg::Move => Mode::Move,
        }
    }
}

impl ConflictArg {
    pub open spec fn meaning(self) -> OnConflict {
        match self {
            ConflictArg::Skip => OnConflict::Skip,
            ConflictArg::Rename => OnConflict::Rename,
            ConflictArg::Overwrite => OnConflict::Overwrite,
        }
    }

    fn rule(self) -> (r: OnConflict)
        ensures
            r == self.meaning(),
    {
        match self {
            ConflictArg::Skip => OnConflict::Skip,
            ConflictArg::Rename => OnConflict::Rename,
            ConflictArg::Overwrite => OnConflict::Overwrite,
        }
    }
}

impl DedupArg {
    pub open spec fn meaning(self) -> DedupMode {
        match self {
            DedupArg::Off => DedupMode::Off,
            DedupArg::SizeHash => DedupMode::SizeHash,
        }
    }

    fn dedup(self) -> (r: DedupMode)
        ensures
            r == self.meaning(),
    {
        match self {
            DedupArg::Off => DedupMode::Off,
            DedupArg::SizeHash => DedupMode::SizeHash,
        }
    }
}

/// How much is logged.
#[derive(Copy, Clone, Debug, PartialEq, Eq, Structural)]
pub enum LevelFilter {
    Error,
    Warn,
    Info,
    Debug,
    Trace,
}

/// The arguments, each as it was given: an outer `None` where the argument is
/// missing, an inner `None` where it stands without a value.
#[derive(Clone, Debug)]
pub struct Cli {
    pub source: String,
    pub dest: String,
    pub group: Option<GroupArg>,
    pub location: Option<Option<DepthArg>>,
    pub template: Option<String>,
    pub mode: Option<ModeArg>,
    pub dry_run: bool,
    pub on_conflict: Option<ConflictArg>,
    pub force: bool,
    pub dedup: Option<DedupArg>,
    pub workers: Option<usize>,
    pub adaptive_threshold: Option<usize>,
    pub json: bool,
    pub resume: Option<String>,
    pub journal: Option<String>,
    pub include_sidecars: Option<Option<bool>>,
    pub include_video: bool,
    pub filename_dates: Option<Option<bool>>,
    pub follow_symlinks: bool,
    pub quiet: bool,
    pub verbose: u8,
}

/// A switch that is on unless it is given with `false`.
pub open spec fn switched(given: Option<Option<bool>>) -> bool {
    match given {
        Some(Some(on)) => on,
        _ => true,
    }
}

fn switch(given: Option<Option<bool>>) -> (on: bool)
    ensures
        on == switched(given),
{
    match given {
        Some(Some(on)) => on,
        _ => true,
    }
}

/// A number that is at least one, or the default where none is given.
pub open spec fn count_of(given: Option<usize>, default: usize) -> usize {
    match given {
        Some(0) => 1,
        Some(n) => n,
        None => default,
    }
}

fn count(given: Option<usize>, default: usize) -> (n: usize)
    ensures
        n == count_of(given, default),
{
    match given {
        Some(n) => if n == 0 {
            1
        } else {
            n
        },
        None => default,
    }
}

impl Cli {
    /// Nothing is given but the two directories.
    pub fn new(source: String, dest: String) -> (r: Cli)
        ensures
            r.source == source,
            r.dest == dest,
            r.group is None,
            r.location is None,
            r.template is None,
            r.mode is None,
            !r.dry_run,
            r.on_conflict is None,
            !r.force,
            r.dedup is None,
            r.workers is None,
            r.adaptive_threshold is None,
            !r.json,
            r.resume is None,
            r.journal is None,
            r.include_sidecars is None,
            !r.include_video,
            r.filename_dates is None,
            !r.follow_symlinks,
            !r.quiet,
            r.verbose == 0,
    {
        Cli {
            source,
            dest,
            group: None,
            location: None,
            template: None,
            mode: None,
            dry_run: false,
            on_conflict: None,
            force: false,
            dedup: None,
            workers: None,
            adaptive_threshold: None,
            json: false,
            resume: None,
            journal: None,
            include_sidecars: None,
            include_video: false,
            filename_dates: None,
            follow_symlinks: false,
            quiet: false,
            verbose: 0,
        }
    }

    /// The options that the arguments ask for. A bare `--location` means the
    /// region. Resuming without naming a journal keeps writing to the same file,
    /// so a run interrupted twice still makes progress.
    pub fn into_options(self) -> (r: Options)
        ensures
            r.source == self.source,
            r.dest == self.dest,
            r.group == (match self.group {
                Some(g) => g.meaning(),
                None => Granularity::Month,
            }),
            r.location == (match self.location {
                Some(Some(d)) => Some(d.meaning()),
                Some(None) => Some(LocationDepth::Region),
                None => None,
            }),
            r.template == self.template,
            r.mode == (match self.mode {
                Some(m) => m.meaning(),
                None => Mode::Copy,
            }),
            r.dry_run == self.dry_run,
            r.on_conflict == (match self.on_conflict {
                Some(c) => c.meaning(),
                None => OnConflict::Rename,
            }),
            r.force == self.force,
            r.dedup == (match self.dedup {
                Some(d) => d.meaning(),
                None => DedupMode::SizeHash,
            }),
            r.copy_workers == count_of(self.workers, DEFAULT_COPY_WORKERS),
            r.adaptive_threshold == count_of(self.adaptive_threshold, DEFAULT_ADAPTIVE_THRESHOLD),
            r.include_sidecars == switched(self.include_sidecars),
            r.include_video == self.include_video,
            r.filename_dates == switched(self.filename_dates),
            r.follow_symlinks == self.follow_symlinks,
            r.resume == self.resume,
            text_view(r.journal) == (match self.journal {
                Some(j) => Some(j@),
                None => text_view(self.resume),
            }),
    {
        let journal = match self.journal {
            Some(j) => Some(j),
            None => match &self.resume {
                Some(r) => Some(r.as_str().to_owned()),
                None => None,
            },
        };
        Options {
            source: self.source,
            dest: self.dest,
            group: match self.group {
                Some(g) => g.granularity(),
                None => Granularity::Month,
            },
            location: match self.location {
                Some(Some(d)) => Some(d.depth()),
                Some(None) => Some(LocationDepth::Region),
                None => None,
            },
            template: self.template,
            mode: match self.mode {
                Some(m) => m.mode(),
                None => Mode::Copy,
            },
            dry_run: self.dry_run,
            on_conflict: match self.on_conflict {
                Some(c) => c.rule(),
                None => OnConflict::Rename,
            },
            force: self.force,
            dedup: match self.dedup {
                Some(d) => d.dedup(),
                None => DedupMode::SizeHash,
            },
            copy_workers: count(self.workers, DEFAULT_COPY_WORKERS),
            adaptive_threshold: count(self.adaptive_threshold, DEFAULT_ADAPTIVE_THRESHOLD),
            include_sidecars: switch(self.include_sidecars),
            include_video: self.include_video,
            filename_dates: switch(self.filename_dates),
            follow_symlinks: self.follow_symlinks,
            resume: self.resume,
            journal,
        }
    }

    pub fn log_level(&self) -> (r: LevelFilter)
        ensures
            r == (if self.quiet {
                LevelFilter::Error
            } else if self.verbose == 0 {
                LevelFilter::Warn
            } else if self.verbose == 1 {
                LevelFilter::Info
            } else if self.verbose == 2 {
                LevelFilter::Debug
            } else {
                LevelFilter::Trace
            }),
    {
        match (self.quiet, self.verbose) {
            (true, _) => LevelFilter::Error,
            (_, 0) => LevelFilter::Warn,
            (_, 1) => LevelFilter::Info,
            (_, 2) => LevelFilter::Debug,
            _ => LevelFilter::Trace,
        }
    }
}

/// Every argument asks for what it is called.
pub proof fn arguments_mean_what_they_are_called(
    group: GroupArg,
    depth: DepthArg,
    mode: ModeArg,
    conflict: ConflictArg,
    dedup: DedupArg,
)
    ensures
        group.meaning() is Year <==> group is Year,
        group.meaning() is Month <==> group is Month,
        group.meaning() is Week <==> group is Week,
        group.meaning() is Day <==> group is Day,
        group.meaning() is Adaptive <==> group is Adaptive,
        depth.meaning() is Country <==> depth is Country,
        depth.meaning() is Region <==> depth is Region,
        depth.meaning() is City <==> depth is City,
        mode.meaning() is Move <==> mode is Move,
        conflict.meaning() is Skip <==> conflict is Skip,
        conflict.meaning() is Rename <==> conflict is Rename,
        conflict.meaning() is Overwrite <==> conflict is Overwrite,
        dedup.meaning() is Off <==> dedup is Off,
{
}

/// A switch is off exactly where it is given as such. A number is taken as it is given,
/// but for zero, which stands for one.
pub proof fn values_are_taken_as_given(given: Option<Option<bool>>, n: Option<usize>, default: usize)
    ensures
        !switched(given) <==> given == Some(Some(false)),
        n is None ==> count_of(n, default) == default,
        n == Some(0usize) ==> count_of(n, default) == 1,
        n matches Some(k) ==> k > 0 ==> count_of(n, default) == k,
{
}

} // verus!
