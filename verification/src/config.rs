//! Core configuration. Deliberately free of argument parsing so the library
//! never depends on the command line.

use crate::error::{Flaw, TemplateError};
use crate::template::{parsed, Template, Token};
use crate::text::{chars_of, push_text, text_of};
use vstd::prelude::*;

verus! {

#[derive(Debug, Clone, Copy, PartialEq, Eq, Structural)]
pub enum Granularity {
    Year,
    Month,
    Week,
    Day,
    Adaptive,
}

impl Default for Granularity {
    fn default() -> (r: Granularity)
        ensures
            r == Granularity::Month,
    {
        Granularity::Month
    }
}

impl Granularity {
    pub open spec fn preset(self) -> Seq<char> {
        match self {
            Granularity::Year => "{year}"@,
            Granularity::Month | Granularity::Adaptive => "{year}/{month:02}-{month_name}"@,
            Granularity::Week => "{iso_year}/{iso_year}-W{iso_week:02}"@,
            Granularity::Day => "{year}/{month:02}/{day:02}"@,
        }
    }

    /// The preset expressed as a template. Adaptive has no single template;
    /// the planner picks one of the fixed ones per node.
    pub fn template_str(self) -> (r: &'static str)
        ensures
            r@ == self.preset(),
    {
        match self {
            Granularity::Year => "{year}",
            Granularity::Month | Granularity::Adaptive => "{year}/{month:02}-{month_name}",
            Granularity::Week => "{iso_year}/{iso_year}-W{iso_week:02}",
            Granularity::Day => "{year}/{month:02}/{day:02}",
        }
    }
}

#[derive(Debug, Clone, Copy, PartialEq, Eq, Structural)]
pub enum LocationDepth {
    Country,
    Region,
    City,
}

impl Default for LocationDepth {
    fn default() -> (r: LocationDepth)
        ensures
            r == LocationDepth::Region,
    {
        LocationDepth::Region
    }
}

impl LocationDepth {
    pub open spec fn suffix(self) -> Seq<char> {
        match self {
            LocationDepth::Country => "{country}"@,
            LocationDepth::Region => "{country}/{region}"@,
            LocationDepth::City => "{country}/{region}/{city}"@,
        }
    }

    pub fn template_suffix(self) -> (r: &'static str)
        ensures
            r@ == self.suffix(),
    {
        match self {
            LocationDepth::Country => "{country}",
            LocationDepth::Region => "{country}/{region}",
            LocationDepth::City => "{country}/{region}/{city}",
        }
    }
}

#[derive(Debug, Clone, Copy, PartialEq, Eq, Structural)]
pub enum Mode {
    Copy,
    Move,
}

impl Default for Mode {
    fn default() -> (r: Mode)
        ensures
            r == Mode::Copy,
    {
        Mode::Copy
    }
}

#[derive(Debug, Clone, Copy, PartialEq, Eq, Structural)]
pub enum OnConflict {
    Skip,
    Rename,
    Overwrite,
}

impl Default for OnConflict {
    fn default() -> (r: OnConflict)
        ensures
            r == OnConflict::Rename,
    {
        OnConflict::Rename
    }
}

#[derive(Debug, Clone, Copy, PartialEq, Eq, Structural)]
pub enum DedupMode {
    Off,
    SizeHash,
}

impl Default for DedupMode {
    fn default() -> (r: DedupMode)
        ensures
            r == DedupMode::SizeHash,
    {
        DedupMode::SizeHash
    }
}

pub const DEFAULT_ADAPTIVE_THRESHOLD: usize = 400;

pub const DEFAULT_COPY_WORKERS: usize = 4;

#[derive(Debug, Clone)]
pub struct Options {
    pub source: String,
    pub dest: String,
    pub group: Granularity,
    pub location: Option<LocationDepth>,
    pub template: Option<String>,
    pub mode: Mode,
    pub dry_run: bool,
    pub on_conflict: OnConflict,
    pub force: bool,
    pub dedup: DedupMode,
    pub copy_workers: usize,
    pub adaptive_threshold: usize,
    pub include_sidecars: bool,
    pub include_video: bool,
    pub filename_dates: bool,
    pub follow_symlinks: bool,
    pub resume: Option<String>,
    pub journal: Option<String>,
}

impl Default for Options {
    fn default() -> (r: Options)
        ensures
            r.source@.len() == 0,
            r.dest@.len() == 0,
            r.group == Granularity::Month,
            r.location is None,
            r.template is None,
            r.mode == Mode::Copy,
            !r.dry_run,
            r.on_conflict == OnConflict::Rename,
            !r.force,
            r.dedup == DedupMode::SizeHash,
            r.copy_workers == DEFAULT_COPY_WORKERS,
            r.adaptive_threshold == DEFAULT_ADAPTIVE_THRESHOLD,
            r.include_sidecars,
            !r.include_video,
            r.filename_dates,
            !r.follow_symlinks,
            r.resume is None,
            r.journal is None,
    {
        Options {
            source: String::new(),
            dest: String::new(),
            group: Granularity::Month,
            location: None,
            template: None,
            mode: Mode::Copy,
            dry_run: false,
            on_conflict: OnConflict::Rename,
            force: false,
            dedup: DedupMode::SizeHash,
            copy_workers: DEFAULT_COPY_WORKERS,
            adaptive_threshold: DEFAULT_ADAPTIVE_THRESHOLD,
            include_sidecars: true,
            include_video: false,
            filename_dates: true,
            follow_symlinks: false,
            resume: None,
            journal: None,
        }
    }
}

/// A date template with the place folders of `location` inside it, unless an
/// explicit template overrides both.
pub open spec fn expanded(
    template: Option<Seq<char>>,
    location: Option<LocationDepth>,
    base: Seq<char>,
) -> Seq<char> {
    match template {
        Some(t) => t,
        None => match location {
            Some(depth) => base + seq!['/'] + depth.suffix(),
            None => base,
        },
    }
}

impl Options {
    /// The template that `template_with_base` builds.
    pub open spec fn expansion(&self, base: Seq<char>) -> Seq<char> {
        expanded(
            match self.template {
                Some(t) => Some(t@),
                None => None,
            },
            self.location,
            base,
        )
    }

    /// Expand `--group` / `--location` into the template string, unless an
    /// explicit `--template` overrides both.
    pub fn template_string(&self, group: Granularity) -> (r: String)
        ensures
            r@ == self.expansion(group.preset()),
    {
        self.template_with_base(group.template_str())
    }

    /// Same expansion for an arbitrary date base, which adaptive grouping needs
    /// because it picks a different base per node.
    pub fn template_with_base(&self, base: &str) -> (r: String)
        ensures
            r@ == self.expansion(base@),
    {
        match &self.template {
            Some(t) => t.clone(),
            None => {
                let mut v = chars_of(base);
                if let Some(depth) = self.location {
                    v.push('/');
                    push_text(&mut v, depth.template_suffix());
                    assert(v@ =~= base@ + seq!['/'] + depth.suffix());
                }
                text_of(&v)
            },
        }
    }

    pub fn build_template(&self, group: Granularity) -> (r: Result<Template, TemplateError>)
        ensures
            match r {
                Ok(t) => parsed(self.expansion(group.preset())) == Ok::<Seq<Seq<Token>>, Flaw>(t@)
                    && t.source_text() == self.expansion(group.preset()),
                Err(e) => parsed(self.expansion(group.preset())) == Err::<Seq<Seq<Token>>, Flaw>(
                    e@,
                ),
            },
    {
        Template::parse(self.template_string(group).as_str())
    }
}

} // verus!
