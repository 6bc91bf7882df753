//! What can go wrong, and how it is told.

use crate::text::{decimal, decimal_chars, push_all, push_text, text_of};
use vstd::prelude::*;

verus! {

/// Errors that abort the whole run.
#[derive(Debug)]
pub enum FatalError {
    SourceUnavailable(String),
    DestinationUnavailable { path: String, source: String },
    Overlap { source_root: String, dest_root: String },
    Template(TemplateError),
    DiskFull { needed: u64, available: u64 },
    OverwriteWithoutForce,
    Io(String),
}

/// Why a template is refused.
#[derive(Debug, PartialEq, Eq)]
pub enum TemplateError {
    UnclosedBrace(usize),
    StrayBrace(usize),
    UnknownVariable(String),
    BadPadding(String),
    ParentEscape,
    Absolute,
    Empty,
}

/// Errors attached to a single file. Never abort the run.
#[derive(Debug)]
pub enum FileError {
    PermissionDenied,
    Unreadable(String),
    SignatureMismatch,
    Copy(String),
}

pub type Result<T> = std::result::Result<T, FatalError>;

/// What a `TemplateError` stands for.
pub enum Flaw {
    UnclosedBrace(nat),
    StrayBrace(nat),
    UnknownVariable(Seq<char>),
    BadPadding(Seq<char>),
    ParentEscape,
    Absolute,
    Empty,
}

impl View for TemplateError {
    type V = Flaw;

    open spec fn view(&self) -> Flaw {
        match self {
            TemplateError::UnclosedBrace(at) => Flaw::UnclosedBrace(*at as nat),
            TemplateError::StrayBrace(at) => Flaw::StrayBrace(*at as nat),
            TemplateError::UnknownVariable(name) => Flaw::UnknownVariable(name@),
            TemplateError::BadPadding(spec) => Flaw::BadPadding(spec@),
            TemplateError::ParentEscape => Flaw::ParentEscape,
            TemplateError::Absolute => Flaw::Absolute,
            TemplateError::Empty => Flaw::Empty,
        }
    }
}

pub open spec fn flaw_text(f: Flaw) -> Seq<char> {
    match f {
        Flaw::UnclosedBrace(at) => "unclosed '{' at byte "@ + decimal(at),
        Flaw::StrayBrace(at) => "unexpected '}' at byte "@ + decimal(at),
        Flaw::UnknownVariable(name) => "unknown variable `"@ + name + "`"@,
        Flaw::BadPadding(spec) => "invalid padding spec `"@ + spec + "`"@,
        Flaw::ParentEscape => "template must not contain `..` path segments"@,
        Flaw::Absolute => "template must be relative, not absolute"@,
        Flaw::Empty => "template is empty"@,
    }
}

impl TemplateError {
    pub fn message(&self) -> (r: String)
        ensures
            r@ == flaw_text(self@),
    {
        let mut v: Vec<char> = Vec::new();
        match self {
            TemplateError::UnclosedBrace(at) => {
                push_text(&mut v, "unclosed '{' at byte ");
                push_all(&mut v, &decimal_chars(*at as u64));
            },
            TemplateError::StrayBrace(at) => {
                push_text(&mut v, "unexpected '}' at byte ");
                push_all(&mut v, &decimal_chars(*at as u64));
            },
            TemplateError::UnknownVariable(name) => {
                push_text(&mut v, "unknown variable `");
                push_text(&mut v, name.as_str());
                push_text(&mut v, "`");
            },
            TemplateError::BadPadding(spec) => {
                push_text(&mut v, "invalid padding spec `");
                push_text(&mut v, spec.as_str());
                push_text(&mut v, "`");
            },
            TemplateError::ParentEscape => push_text(
                &mut v,
                "template must not contain `..` path segments",
            ),
            TemplateError::Absolute => push_text(
                &mut v,
                "template must be relative, not absolute",
            ),
            TemplateError::Empty => push_text(&mut v, "template is empty"),
        }
        assert(v@ =~= flaw_text(self@));
        text_of(&v)
    }
}

impl FatalError {
    pub open spec fn text(&self) -> Seq<char> {
        match self {
            FatalError::SourceUnavailable(path) =>
                "source directory does not exist or is not a directory: "@ + path@,
            FatalError::DestinationUnavailable { path, source } =>
                "destination is unavailable: "@ + path@ + ": "@ + source@,
            FatalError::Overlap { source_root, dest_root } => "source and destination overlap ("@
                + source_root@ + " <-> "@ + dest_root@ + "); refusing to run"@,
            FatalError::Template(e) => "invalid template: "@ + flaw_text(e@),
            FatalError::DiskFull { needed, available } =>
                "not enough free space on destination: need "@ + decimal(*needed as nat)
                + " bytes, "@ + decimal(*available as nat) + " bytes available"@,
            FatalError::OverwriteWithoutForce => "--on-conflict overwrite requires --force"@,
            FatalError::Io(reason) => reason@,
        }
    }

    pub fn message(&self) -> (r: String)
        ensures
            r@ == self.text(),
    {
        let mut v: Vec<char> = Vec::new();
        match self {
            FatalError::SourceUnavailable(path) => {
                push_text(&mut v, "source directory does not exist or is not a directory: ");
                push_text(&mut v, path.as_str());
            },
            FatalError::DestinationUnavailable { path, source } => {
                push_text(&mut v, "destination is unavailable: ");
                push_text(&mut v, path.as_str());
                push_text(&mut v, ": ");
                push_text(&mut v, source.as_str());
            },
            FatalError::Overlap { source_root, dest_root } => {
                push_text(&mut v, "source and destination overlap (");
                push_text(&mut v, source_root.as_str());
                push_text(&mut v, " <-> ");
                push_text(&mut v, dest_root.as_str());
                push_text(&mut v, "); refusing to run");
            },
            FatalError::Template(e) => {
                push_text(&mut v, "invalid template: ");
                push_text(&mut v, e.message().as_str());
            },
            FatalError::DiskFull { needed, available } => {
                push_text(&mut v, "not enough free space on destination: need ");
                push_all(&mut v, &decimal_chars(*needed));
                push_text(&mut v, " bytes, ");
                push_all(&mut v, &decimal_chars(*available));
                push_text(&mut v, " bytes available");
            },
            FatalError::OverwriteWithoutForce => push_text(
                &mut v,
                "--on-conflict overwrite requires --force",
            ),
            FatalError::Io(reason) => push_text(&mut v, reason.as_str()),
        }
        assert(v@ =~= self.text());
        text_of(&v)
    }
}

impl FileError {
    pub open spec fn text(&self) -> Seq<char> {
        match self {
            FileError::PermissionDenied => "permission denied"@,
            FileError::Unreadable(reason) => "unreadable: "@ + reason@,
            FileError::SignatureMismatch => "not a recognized image (signature mismatch)"@,
            FileError::Copy(reason) => "copy failed: "@ + reason@,
        }
    }

    pub fn message(&self) -> (r: String)
        ensures
            r@ == self.text(),
    {
        let mut v: Vec<char> = Vec::new();
        match self {
            FileError::PermissionDenied => push_text(&mut v, "permission denied"),
            FileError::Unreadable(reason) => {
                push_text(&mut v, "unreadable: ");
                push_text(&mut v, reason.as_str());
            },
            FileError::SignatureMismatch => push_text(
                &mut v,
                "not a recognized image (signature mismatch)",
            ),
            FileError::Copy(reason) => {
                push_text(&mut v, "copy failed: ");
                push_text(&mut v, reason.as_str());
            },
        }
        assert(v@ =~= self.text());
        text_of(&v)
    }
}

} // verus!
