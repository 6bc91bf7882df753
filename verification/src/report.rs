//! Output contract. Machine records go to stdout, everything a human watches
//! goes to stderr. What is said stands here; the writing stands outside.

use crate::error::FileError;
use crate::execute::ExecStats;
use crate::plan::{Action, Op, Operation, PlanStats, Reason};
use crate::template::text_view;
use crate::text::{
    begins, char_at, chars_of, decimal, decimal_chars, find_last, last_index,
    lemma_last_index, push_all, push_text, starts_with, text_of,
};
use vstd::prelude::*;
use vstd::slice::slice_subrange;

verus! {

/// 0 clean, 1 finished with per-file failures, 2 never started.
pub const EXIT_OK: u8 = 0;

pub const EXIT_PARTIAL: u8 = 1;

pub const EXIT_FATAL: u8 = 2;

#[derive(Debug, Clone, Copy, PartialEq, Eq, Structural)]
pub enum Format {
    Human,
    Jsonl,
}

impl Format {
    pub fn chosen(json: bool) -> (r: Format)
        ensures
            r is Jsonl == json,
    {
        if json {
            Format::Jsonl
        } else {
            Format::Human
        }
    }
}

/// The verbatim prefixes of a path are gone.
pub open spec fn unprefixed(s: Seq<char>) -> Seq<char> {
    if starts_with(s, seq!['\\', '\\', '?', '\\', 'U', 'N', 'C', '\\']) {
        seq!['\\', '\\'] + s.skip(8)
    } else {
        past_marks(s)
    }
}

pub open spec fn past_marks(s: Seq<char>) -> Seq<char>
    decreases s.len(),
{
    if starts_with(s, seq!['\\', '\\', '?', '\\']) {
        past_marks(s.skip(4))
    } else {
        s
    }
}

pub open spec fn slashed(s: Seq<char>) -> Seq<char> {
    unprefixed(s).map_values(
        |c: char|
            if c == '\\' {
                '/'
            } else {
                c
            },
    )
}

/// A path as records and messages show it. Windows canonicalization returns
/// verbatim paths; the prefix is correct but unreadable, and no consumer of the
/// records needs it either.
pub fn slashes(s: &str) -> (r: String)
    ensures
        r@ == slashed(s@),
{
    let v = chars_of(s);
    let share: [char; 8] = ['\\', '\\', '?', '\\', 'U', 'N', 'C', '\\'];
    let mark: [char; 4] = ['\\', '\\', '?', '\\'];
    assert(share@ =~= seq!['\\', '\\', '?', '\\', 'U', 'N', 'C', '\\']);
    assert(mark@ =~= seq!['\\', '\\', '?', '\\']);
    let mut out: Vec<char> = Vec::new();
    let mut start: usize = 0;
    let len = v.len();
    if begins(&v, &share) {
        out.push('/');
        out.push('/');
        start = 8;
    } else {
        assert(v@.skip(0) =~= v@);
        while begins(slice_subrange(&v, start, len), &mark)
            invariant
                mark@ == seq!['\\', '\\', '?', '\\'],
                start <= len == v@.len(),
                past_marks(v@) == past_marks(v@.skip(start as int)),
            ensures
                start <= v@.len(),
                v@.skip(start as int) == past_marks(v@),
            decreases len - start,
        {
            assert(v@.subrange(start as int, len as int) =~= v@.skip(start as int));
            assert(v@.skip(start as int).skip(4) =~= v@.skip(start + 4));
            start += 4;
        }
        assert(v@.subrange(start as int, len as int) =~= v@.skip(start as int));
    }
    let ghost lead = out@;
    let mut i = start;
    while i < v.len()
        invariant
            start <= i <= v@.len(),
            out@.len() == lead.len() + i - start,
            forall|k: int| 0 <= k < lead.len() ==> out@[k] == lead[k],
            forall|k: int|
                start <= k < i ==> out@[lead.len() + k - start] == (if #[trigger] v@[k] == '\\' {
                    '/'
                } else {
                    v@[k]
                }),
        decreases v@.len() - i,
    {
        let c = char_at(&v, i);
        out.push(
            if c == '\\' {
                '/'
            } else {
                c
            },
        );
        i += 1;
    }
    proof {
        let whole = unprefixed(v@);
        assert(whole.len() == out@.len());
        assert forall|k: int| 0 <= k < out@.len() implies out@[k] == slashed(s@)[k] by {
            if k >= lead.len() {
                let j = k - lead.len() + start;
                assert(v@[j] == whole[k]);
                assert(out@[lead.len() + j - start] == out@[k]);
            } else {
                assert(out@[k] == lead[k]);
                assert(whole[k] == '\\');
                assert(lead[k] == '/');
            }
        }
        assert(out@ =~= slashed(s@));
    }
    text_of(&out)
}

pub open spec fn shortened(s: Seq<char>) -> Seq<char> {
    let at = last_index(s, '/');
    if at >= 0 {
        s.skip(at + 1)
    } else {
        s.skip(last_index(s, '\\') + 1)
    }
}

/// The last name of a path.
pub fn short(s: &str) -> (r: String)
    ensures
        r@ == shortened(s@),
{
    let v = chars_of(s);
    proof {
        lemma_last_index(v@, '/');
        lemma_last_index(v@, '\\');
    }
    let len = v.len();
    match find_last(&v, '/') {
        Some(at) => {
            let r = slice_subrange(&v, at + 1, len);
            assert(r@ =~= shortened(s@));
            text_of(r)
        },
        None => match find_last(&v, '\\') {
            Some(at) => {
                let r = slice_subrange(&v, at + 1, len);
                assert(r@ =~= shortened(s@));
                text_of(r)
            },
            None => {
                assert(v@ =~= shortened(s@));
                text_of(&v)
            },
        },
    }
}

/// One file, as a machine reads it.
#[derive(Debug, Clone)]
pub struct Record {
    pub source: String,
    pub destination: Option<String>,
    pub action: Action,
    pub reason: Reason,
    pub bytes: u64,
    pub duplicate_of: Option<String>,
    pub error: Option<String>,
}

/// A path that may be missing, as records and messages show it.
pub open spec fn shown(p: Option<Seq<char>>) -> Option<Seq<char>> {
    match p {
        Some(s) => Some(slashed(s)),
        None => None,
    }
}

pub open spec fn error_text(e: Option<FileError>) -> Option<Seq<char>> {
    match e {
        Some(e) => Some(e.text()),
        None => None,
    }
}

pub open spec fn is_record(r: Record, op: Op, error: Option<FileError>) -> bool {
    &&& r.source@ == slashed(op.source)
    &&& text_view(r.destination) == shown(op.dest)
    &&& r.action == op.action
    &&& r.reason == op.reason
    &&& r.bytes == op.bytes
    &&& text_view(r.duplicate_of) == shown(op.duplicate_of)
    &&& text_view(r.error) == error_text(error)
}

fn show(p: &Option<String>) -> (r: Option<String>)
    ensures
        text_view(r) == shown(text_view(*p)),
{
    match p {
        Some(s) => Some(slashes(s.as_str())),
        None => None,
    }
}

pub fn record(op: &Operation, error: &Option<FileError>) -> (r: Record)
    ensures
        is_record(r, op@, *error),
{
    Record {
        source: slashes(op.source_rel.as_str()),
        destination: show(&op.dest_rel),
        action: op.action,
        reason: op.reason,
        bytes: op.bytes,
        duplicate_of: show(&op.duplicate_of),
        error: match error {
            Some(e) => Some(e.message()),
            None => None,
        },
    }
}

/// One file, as a human reads it.
pub open spec fn human_text(op: Op, error: Option<FileError>) -> Seq<char> {
    let source = slashed(op.source);
    let dest = match op.dest {
        Some(d) => slashed(d),
        None => "-"@,
    };
    match error {
        Some(e) => source + " -> FAILED: "@ + e.text(),
        None => match op.reason {
            Reason::DuplicateOfDestination | Reason::DuplicateOfSource => source
                + " -> SKIP: duplicate of "@ + (match op.duplicate_of {
                Some(d) => slashed(d),
                None => dest,
            }),
            Reason::AlreadyDone => source + " -> SKIP: already done"@,
            Reason::ExistingFile => if op.action is Skip {
                source + " -> SKIP: exists "@ + dest
            } else {
                source + " -> "@ + dest
            },
            _ => source + " -> "@ + dest,
        },
    }
}

pub fn human(op: &Operation, error: &Option<FileError>) -> (r: String)
    ensures
        r@ == human_text(op@, *error),
{
    let mut v = chars_of(slashes(op.source_rel.as_str()).as_str());
    let dest = match &op.dest_rel {
        Some(d) => slashes(d.as_str()),
        None => "-".to_owned(),
    };
    match error {
        Some(e) => {
            push_text(&mut v, " -> FAILED: ");
            push_text(&mut v, e.message().as_str());
        },
        None => match op.reason {
            Reason::DuplicateOfDestination | Reason::DuplicateOfSource => {
                push_text(&mut v, " -> SKIP: duplicate of ");
                match &op.duplicate_of {
                    Some(d) => push_text(&mut v, slashes(d.as_str()).as_str()),
                    None => push_text(&mut v, dest.as_str()),
                }
            },
            Reason::AlreadyDone => push_text(&mut v, " -> SKIP: already done"),
            Reason::ExistingFile => {
                if op.action == Action::Skip {
                    push_text(&mut v, " -> SKIP: exists ");
                } else {
                    push_text(&mut v, " -> ");
                }
                push_text(&mut v, dest.as_str());
            },
            _ => {
                push_text(&mut v, " -> ");
                push_text(&mut v, dest.as_str());
            },
        },
    }
    assert(v@ =~= human_text(op@, *error));
    text_of(&v)
}

pub open spec fn failure_text(path: Seq<char>, error: Seq<char>) -> Seq<char> {
    path + ": "@ + error
}

/// How a failure is told, in a warning and in the summary.
pub fn failure(path: &str, error: &FileError) -> (r: String)
    ensures
        r@ == failure_text(path@, error.text()),
{
    let mut v = chars_of(path);
    push_text(&mut v, ": ");
    push_text(&mut v, error.message().as_str());
    assert(v@ =~= failure_text(path@, error.text()));
    text_of(&v)
}

/// What goes to stdout for one file.
pub enum Line {
    Record(Record),
    Text(String),
    Nothing,
}

/// One record per file, emitted identically for dry runs and real runs.
pub fn line_of(format: Format, quiet: bool, op: &Operation, error: &Option<FileError>) -> (r: Line)
    ensures
        match format {
            Format::Jsonl => r matches Line::Record(record) && is_record(record, op@, *error),
            Format::Human => if quiet {
                r is Nothing
            } else {
                r matches Line::Text(text) && text@ == human_text(op@, *error)
            },
        },
{
    match format {
        Format::Jsonl => Line::Record(record(op, error)),
        Format::Human => if quiet {
            Line::Nothing
        } else {
            Line::Text(human(op, error))
        },
    }
}

/// The whole run, as a machine reads it.
#[derive(Debug, Clone)]
pub struct Summary {
    pub source_root: String,
    pub dest_root: String,
    pub dry_run: bool,
    pub scanned: usize,
    pub planned: usize,
    pub copied: usize,
    pub moved: usize,
    pub overwritten: usize,
    pub skipped: usize,
    pub duplicates: usize,
    pub renamed: usize,
    pub resumed: usize,
    pub unshippable: usize,
    pub failed: usize,
    pub bytes: u64,
    pub cancelled: bool,
    pub unattempted: usize,
    pub failures: Vec<String>,
}

pub fn summary(
    source_root: &str,
    dest_root: &str,
    scanned: usize,
    plan: &PlanStats,
    exec: &ExecStats,
    dry_run: bool,
    failures: Vec<String>,
) -> (r: Summary)
    ensures
        r.source_root@ == slashed(source_root@),
        r.dest_root@ == slashed(dest_root@),
        r.dry_run == dry_run,
        r.scanned == scanned,
        r.planned == plan.pending,
        r.copied == exec.copied,
        r.moved == exec.moved,
        r.overwritten == exec.overwritten,
        r.skipped == exec.skipped,
        r.duplicates == plan.duplicates,
        r.renamed == plan.renamed,
        r.resumed == plan.resumed,
        r.unshippable == plan.unshippable,
        r.failed == exec.failed,
        r.bytes == exec.bytes,
        r.cancelled == exec.cancelled,
        r.unattempted == exec.unattempted,
        r.failures == failures,
{
    Summary {
        source_root: slashes(source_root),
        dest_root: slashes(dest_root),
        dry_run,
        scanned,
        planned: plan.pending,
        copied: exec.copied,
        moved: exec.moved,
        overwritten: exec.overwritten,
        skipped: exec.skipped,
        duplicates: plan.duplicates,
        renamed: plan.renamed,
        resumed: plan.resumed,
        unshippable: plan.unshippable,
        failed: exec.failed,
        bytes: exec.bytes,
        cancelled: exec.cancelled,
        unattempted: exec.unattempted,
        failures,
    }
}

pub open spec fn processed_text(done: nat, scanned: nat, size: Seq<char>, dry_run: bool) -> Seq<
    char,
> {
    (if dry_run {
        "would process "@
    } else {
        "processed "@
    }) + decimal(done) + " of "@ + decimal(scanned) + " files ("@ + size + ")"@
}

pub open spec fn counts_text(plan: PlanStats) -> Seq<char> {
    "  duplicates "@ + decimal(plan.duplicates as nat) + "  renamed "@ + decimal(
        plan.renamed as nat,
    ) + "  existing "@ + decimal(plan.skipped_existing as nat) + "  resumed "@ + decimal(
        plan.resumed as nat,
    ) + "  unshippable "@ + decimal(plan.unshippable as nat)
}

pub open spec fn failed_text(failed: nat) -> Seq<char> {
    "  "@ + decimal(failed) + " files failed"@
}

pub open spec fn interrupted_text(unattempted: nat) -> Seq<char> {
    "  interrupted: "@ + decimal(unattempted) + " operations were not started"@
}

/// The whole run, as a human reads it, line by line.
pub open spec fn closing_lines(
    scanned: nat,
    plan: PlanStats,
    exec: ExecStats,
    dry_run: bool,
    size: Seq<char>,
) -> Seq<Seq<char>> {
    seq![
        processed_text(
            (exec.copied + exec.moved + exec.overwritten) as nat,
            scanned,
            size,
            dry_run,
        ),
        counts_text(plan),
    ] + (if exec.failed > 0 {
        seq![failed_text(exec.failed as nat)]
    } else {
        seq![]
    }) + (if exec.cancelled {
        seq![interrupted_text(exec.unattempted as nat)]
    } else {
        seq![]
    })
}

fn push_number(v: &mut Vec<char>, n: usize)
    ensures
        final(v)@ == old(v)@ + decimal(n as nat),
{
    push_all(v, &decimal_chars(n as u64));
}

/// The short block for humans. `size` is the number of bytes, made readable.
pub fn closing(
    scanned: usize,
    plan: &PlanStats,
    exec: &ExecStats,
    dry_run: bool,
    size: &str,
) -> (r: Vec<String>)
    requires
        exec.copied + exec.moved + exec.overwritten <= usize::MAX,
    ensures
        r@.map_values(|s: String| s@) == closing_lines(
            scanned as nat,
            *plan,
            *exec,
            dry_run,
            size@,
        ),
{
    let mut lines: Vec<String> = Vec::new();
    let mut v: Vec<char> = Vec::new();
    push_text(
        &mut v,
        if dry_run {
            "would process "
        } else {
            "processed "
        },
    );
    push_number(&mut v, exec.copied + exec.moved + exec.overwritten);
    push_text(&mut v, " of ");
    push_number(&mut v, scanned);
    push_text(&mut v, " files (");
    push_text(&mut v, size);
    push_text(&mut v, ")");
    assert(v@ =~= processed_text(
        (exec.copied + exec.moved + exec.overwritten) as nat,
        scanned as nat,
        size@,
        dry_run,
    ));
    lines.push(text_of(&v));
    let mut v: Vec<char> = Vec::new();
    push_text(&mut v, "  duplicates ");
    push_number(&mut v, plan.duplicates);
    push_text(&mut v, "  renamed ");
    push_number(&mut v, plan.renamed);
    push_text(&mut v, "  existing ");
    push_number(&mut v, plan.skipped_existing);
    push_text(&mut v, "  resumed ");
    push_number(&mut v, plan.resumed);
    push_text(&mut v, "  unshippable ");
    push_number(&mut v, plan.unshippable);
    assert(v@ =~= counts_text(*plan));
    lines.push(text_of(&v));
    if exec.failed > 0 {
        let mut v: Vec<char> = Vec::new();
        push_text(&mut v, "  ");
        push_number(&mut v, exec.failed);
        push_text(&mut v, " files failed");
        assert(v@ =~= failed_text(exec.failed as nat));
        lines.push(text_of(&v));
    }
    if exec.cancelled {
        let mut v: Vec<char> = Vec::new();
        push_text(&mut v, "  interrupted: ");
        push_number(&mut v, exec.unattempted);
        push_text(&mut v, " operations were not started");
        assert(v@ =~= interrupted_text(exec.unattempted as nat));
        lines.push(text_of(&v));
    }
    assert(lines@.map_values(|s: String| s@) =~= closing_lines(
        scanned as nat,
        *plan,
        *exec,
        dry_run,
        size@,
    ));
    lines
}

/// How a run that started ends.
pub fn exit_code(exec: &ExecStats, scan_failures: usize) -> (r: u8)
    ensures
        r == (if exec.failed == 0 && scan_failures == 0 && !exec.cancelled {
            EXIT_OK
        } else {
            EXIT_PARTIAL
        }),
{
    if exec.failed == 0 && scan_failures == 0 && !exec.cancelled {
        EXIT_OK
    } else {
        EXIT_PARTIAL
    }
}

} // verus!
