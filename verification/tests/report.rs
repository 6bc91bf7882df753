use photorg::error::FileError;
use photorg::execute::ExecStats;
use photorg::plan::{Action, Operation, PlanStats, Reason};
use photorg::report::{
    closing, exit_code, failure, human, line_of, record, short, slashes, summary, Format, Line,
    EXIT_OK, EXIT_PARTIAL,
};

fn op(reason: Reason, action: Action) -> Operation {
    Operation {
        source_rel: "cam/dated.jpg".into(),
        dest_rel: Some("2021/06-June/dated.jpg".into()),
        action,
        reason,
        bytes: 9,
        duplicate_of: None,
    }
}

#[test]
fn jsonl_records_carry_the_documented_fields() {
    let r = record(&op(Reason::Planned, Action::Copy), &None);
    assert_eq!(r.source, "cam/dated.jpg");
    assert_eq!(r.destination.as_deref(), Some("2021/06-June/dated.jpg"));
    assert_eq!(r.action, Action::Copy);
    assert_eq!(r.reason, Reason::Planned);
    assert_eq!(r.bytes, 9);
    assert!(r.error.is_none(), "a clean record carries no error");

    let mut dup = op(Reason::DuplicateOfSource, Action::Skip);
    dup.duplicate_of = Some("cam\\first.jpg".into());
    let r = record(&dup, &Some(FileError::PermissionDenied));
    assert_eq!(r.duplicate_of.as_deref(), Some("cam/first.jpg"));
    assert_eq!(r.error.as_deref(), Some("permission denied"));
}

#[test]
fn human_lines_tell_what_happened() {
    let text = |o: &Operation, e: Option<FileError>| human(o, &e);
    let mut o = op(Reason::Planned, Action::Copy);
    assert_eq!(text(&o, None), "cam/dated.jpg -> 2021/06-June/dated.jpg");
    assert_eq!(
        text(&o, Some(FileError::Copy("no".into()))),
        "cam/dated.jpg -> FAILED: copy failed: no"
    );
    o.reason = Reason::ExistingFile;
    assert_eq!(text(&o, None), "cam/dated.jpg -> 2021/06-June/dated.jpg");
    o.action = Action::Skip;
    assert_eq!(
        text(&o, None),
        "cam/dated.jpg -> SKIP: exists 2021/06-June/dated.jpg"
    );
    o.reason = Reason::AlreadyDone;
    assert_eq!(text(&o, None), "cam/dated.jpg -> SKIP: already done");
    o.reason = Reason::DuplicateOfDestination;
    assert_eq!(
        text(&o, None),
        "cam/dated.jpg -> SKIP: duplicate of 2021/06-June/dated.jpg"
    );
    o.duplicate_of = Some("x.jpg".into());
    assert_eq!(
        text(&o, None),
        "cam/dated.jpg -> SKIP: duplicate of x.jpg"
    );
    o.reason = Reason::Renamed;
    o.dest_rel = None;
    assert_eq!(text(&o, None), "cam/dated.jpg -> -");
}

#[test]
fn quiet_keeps_stdout_intact_and_stderr_empty() {
    let o = op(Reason::Planned, Action::Copy);
    assert!(matches!(line_of(Format::Jsonl, true, &o, &None), Line::Record(_)));
    assert!(matches!(line_of(Format::Human, true, &o, &None), Line::Nothing));
    assert!(matches!(line_of(Format::Human, false, &o, &None), Line::Text(_)));
    assert_eq!(Format::chosen(true), Format::Jsonl);
}

#[test]
fn the_summary_carries_both_passes() {
    let plan = PlanStats {
        pending: 3,
        duplicates: 2,
        renamed: 1,
        resumed: 4,
        unshippable: 5,
        skipped_existing: 6,
        ..Default::default()
    };
    let exec = ExecStats {
        copied: 1,
        moved: 2,
        overwritten: 3,
        failed: 4,
        bytes: 50,
        cancelled: true,
        unattempted: 7,
        ..Default::default()
    };
    let s = summary(r"\\?\C:\in", "/out", 9, &plan, &exec, true, vec!["x".into()]);
    assert_eq!(s.source_root, "C:/in");
    assert_eq!(s.dest_root, "/out");
    assert!(s.dry_run && s.cancelled);
    assert_eq!((s.scanned, s.planned, s.duplicates), (9, 3, 2));
    assert_eq!((s.renamed, s.resumed, s.unshippable), (1, 4, 5));
    assert_eq!((s.copied, s.moved, s.overwritten), (1, 2, 3));
    assert_eq!((s.skipped, s.failed, s.bytes, s.unattempted), (0, 4, 50, 7));
    assert_eq!(s.failures, vec!["x"]);

    assert_eq!(
        closing(9, &plan, &exec, true, "50 B"),
        vec![
            "would process 6 of 9 files (50 B)",
            "  duplicates 2  renamed 1  existing 6  resumed 4  unshippable 5",
            "  4 files failed",
            "  interrupted: 7 operations were not started",
        ]
    );
    assert_eq!(
        closing(0, &PlanStats::default(), &ExecStats::default(), false, "0 B")[0],
        "processed 0 of 0 files (0 B)"
    );
}

#[test]
fn paths_are_shown_with_slashes() {
    assert_eq!(slashes(r"a\b/c"), "a/b/c");
    assert_eq!(slashes(r"\\?\UNC\srv\x"), "//srv/x");
    assert_eq!(slashes(r"\\?\\\?\C:\x"), "C:/x");
    assert_eq!(short("a/b/c.jpg"), "c.jpg");
    assert_eq!(short(r"a\b\c.jpg"), "c.jpg");
    assert_eq!(short("c.jpg"), "c.jpg");
    assert_eq!(
        failure("a.jpg", &FileError::SignatureMismatch),
        "a.jpg: not a recognized image (signature mismatch)"
    );
}

#[test]
fn the_exit_code_tells_partial_runs() {
    let clean = ExecStats::default();
    assert_eq!(exit_code(&clean, 0), EXIT_OK);
    assert_eq!(exit_code(&clean, 1), EXIT_PARTIAL);
    let failed = ExecStats {
        failed: 1,
        ..Default::default()
    };
    assert_eq!(exit_code(&failed, 0), EXIT_PARTIAL);
    let cancelled = ExecStats {
        cancelled: true,
        ..Default::default()
    };
    assert_eq!(exit_code(&cancelled, 0), EXIT_PARTIAL);
}
