use photorg::cli::{Cli, ConflictArg, DedupArg, DepthArg, GroupArg, LevelFilter, ModeArg};
use photorg::config::{
    DedupMode, Granularity, LocationDepth, Mode, OnConflict, DEFAULT_ADAPTIVE_THRESHOLD,
    DEFAULT_COPY_WORKERS,
};

fn given() -> Cli {
    Cli::new("a".into(), "b".into())
}

#[test]
fn defaults_match_the_documented_surface() {
    let opts = given().into_options();
    assert_eq!(opts.group, Granularity::Month);
    assert_eq!(opts.mode, Mode::Copy);
    assert_eq!(opts.on_conflict, OnConflict::Rename);
    assert_eq!(opts.dedup, DedupMode::SizeHash);
    assert_eq!(opts.copy_workers, DEFAULT_COPY_WORKERS);
    assert!(opts.location.is_none());
    assert!(opts.include_sidecars);
    assert!(opts.filename_dates);
    assert!(!opts.include_video);
    assert!(!opts.follow_symlinks);
}

#[test]
fn bare_location_means_region() {
    let opts = Cli {
        location: Some(None),
        ..given()
    }
    .into_options();
    assert_eq!(opts.location, Some(LocationDepth::Region));
    let opts = Cli {
        location: Some(Some(DepthArg::City)),
        ..given()
    }
    .into_options();
    assert_eq!(opts.location, Some(LocationDepth::City));
}

#[test]
fn defaulted_booleans_can_be_switched_off() {
    let opts = Cli {
        filename_dates: Some(Some(false)),
        ..given()
    }
    .into_options();
    assert!(!opts.filename_dates);
}

#[test]
fn resume_doubles_as_the_journal_path() {
    let opts = Cli {
        resume: Some("j.jsonl".into()),
        ..given()
    }
    .into_options();
    assert_eq!(opts.journal, opts.resume);
    assert_eq!(opts.journal.as_deref(), Some("j.jsonl"));
}

#[test]
fn workers_never_reach_zero() {
    let opts = Cli {
        workers: Some(0),
        ..given()
    }
    .into_options();
    assert_eq!(opts.copy_workers, 1);
}

#[test]
fn a_named_journal_wins_over_the_resumed_one() {
    let opts = Cli {
        resume: Some("old.jsonl".into()),
        journal: Some("new.jsonl".into()),
        ..given()
    }
    .into_options();
    assert_eq!(opts.journal.as_deref(), Some("new.jsonl"));
    assert_eq!(opts.resume.as_deref(), Some("old.jsonl"));
}

#[test]
fn every_argument_reaches_the_options() {
    let opts = Cli {
        group: Some(GroupArg::Adaptive),
        template: Some("{year}".into()),
        mode: Some(ModeArg::Move),
        dry_run: true,
        on_conflict: Some(ConflictArg::Overwrite),
        force: true,
        dedup: Some(DedupArg::Off),
        workers: Some(7),
        adaptive_threshold: Some(0),
        include_sidecars: Some(None),
        include_video: true,
        follow_symlinks: true,
        ..given()
    }
    .into_options();
    assert_eq!(opts.source, "a");
    assert_eq!(opts.dest, "b");
    assert_eq!(opts.group, Granularity::Adaptive);
    assert_eq!(opts.template.as_deref(), Some("{year}"));
    assert_eq!(opts.mode, Mode::Move);
    assert!(opts.dry_run && opts.force);
    assert_eq!(opts.on_conflict, OnConflict::Overwrite);
    assert_eq!(opts.dedup, DedupMode::Off);
    assert_eq!(opts.copy_workers, 7);
    assert_eq!(opts.adaptive_threshold, 1);
    assert!(opts.include_sidecars && opts.include_video && opts.follow_symlinks);
    assert_eq!(
        given().into_options().adaptive_threshold,
        DEFAULT_ADAPTIVE_THRESHOLD
    );
}

#[test]
fn quiet_and_verbose_set_the_log_level() {
    let level = |quiet: bool, verbose: u8| {
        Cli {
            quiet,
            verbose,
            ..given()
        }
        .log_level()
    };
    assert_eq!(level(true, 3), LevelFilter::Error);
    assert_eq!(level(false, 0), LevelFilter::Warn);
    assert_eq!(level(false, 1), LevelFilter::Info);
    assert_eq!(level(false, 2), LevelFilter::Debug);
    assert_eq!(level(false, 9), LevelFilter::Trace);
}
