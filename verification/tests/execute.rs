use photorg::error::FileError;
use photorg::execute::{
    classify, ending, is_cross_device, issue, perform, pool_size, temp_path, End, ExecStats,
    Issue, LiveTemps,
};
use photorg::plan::{Action, Operation, Reason};
use photorg::sanitize::Platform;
use photorg::scan::{consider, Verdict, TMP_PREFIX};
use photorg::spill::Writer;
use photorg::transfer::{Ask, Fault, Transfer};
use std::collections::BTreeMap;

fn op(source: &str, dest: &str, action: Action, bytes: u64) -> Operation {
    Operation {
        source_rel: source.into(),
        dest_rel: Some(dest.into()),
        action,
        reason: Reason::Planned,
        bytes,
        duplicate_of: None,
    }
}

/// A file: its bytes and when it was modified.
#[derive(Debug, Clone, PartialEq)]
struct Stored {
    bytes: Vec<u8>,
    mtime: u32,
}

fn stored(bytes: &[u8]) -> Stored {
    Stored {
        bytes: bytes.to_vec(),
        mtime: 77,
    }
}

/// A disk in memory, with a source tree under `/src` and a destination under
/// `/dst`, the temp files that are in flight, and what it has been told to refuse,
/// with the error number.
struct Env {
    files: BTreeMap<String, Stored>,
    dirs: Vec<String>,
    live: LiveTemps,
    seen: Vec<String>,
    asks: Vec<Ask>,
    refused: Vec<(Ask, i32)>,
    platform: Platform,
}

fn env(files: &[(&str, &[u8])]) -> Env {
    Env {
        files: files
            .iter()
            .map(|(name, bytes)| (format!("/src/{name}"), stored(bytes)))
            .collect(),
        dirs: Vec::new(),
        live: LiveTemps::new(),
        seen: Vec::new(),
        asks: Vec::new(),
        refused: Vec::new(),
        platform: Platform::Unix,
    }
}

impl Env {
    fn bytes(&self, path: &str) -> &[u8] {
        &self.files[path].bytes
    }

    fn take(&mut self, path: &str) -> Result<Stored, i32> {
        self.files.remove(path).ok_or(2)
    }

    /// Does what is asked; the error is the system's number.
    fn work(&mut self, ask: Ask, source: &str, dest: &str, dir: &str, tmp: &str) -> Result<(), i32> {
        self.asks.push(ask);
        if let Some(at) = self.refused.iter().position(|(what, _)| *what == ask) {
            return Err(self.refused.remove(at).1);
        }
        match ask {
            Ask::MakeParent => self.dirs.push(dir.into()),
            Ask::RenameSource => {
                let it = self.take(source)?;
                self.files.insert(dest.into(), it);
            }
            Ask::ClearDest => {
                self.take(dest)?;
            }
            Ask::Track => self.live.track(tmp.into()),
            Ask::OpenSource => {
                self.files.get(source).ok_or(2)?;
            }
            Ask::CreateTemp => {
                self.files.insert(
                    tmp.into(),
                    Stored {
                        bytes: Vec::new(),
                        mtime: 99,
                    },
                );
            }
            Ask::CopyBytes => {
                assert!(self.live.contains(tmp));
                let bytes = self.files[source].bytes.clone();
                self.files.get_mut(tmp).ok_or(2)?.bytes = bytes;
            }
            Ask::SetTimes => {
                let mtime = self.files[source].mtime;
                self.files.get_mut(tmp).ok_or(2)?.mtime = mtime;
            }
            Ask::Sync | Ask::ReadMetadata | Ask::SetPermissions => {}
            Ask::RenameTemp => {
                let it = self.take(tmp)?;
                self.files.insert(dest.into(), it);
            }
            Ask::RemoveTemp => {
                self.take(tmp)?;
            }
            Ask::Untrack => self.live.untrack(tmp),
            Ask::RemoveSource => {
                self.take(source)?;
            }
        }
        Ok(())
    }

    fn carry_out(&mut self, op: &Operation) -> Result<(), FileError> {
        let w = perform("/src", "/dst", op, true, self.platform)?;
        let tmp = temp_path(&w.parent, 0xabc, self.seen.len() as u64);
        let mut t = Transfer::new(
            op.action,
            self.platform,
            w.source.clone(),
            w.parent.clone(),
        );
        while let Some(ask) = t.ask() {
            let done = self.work(ask, &w.source, &w.dest, &w.parent, &tmp);
            t.answer(done.err().map(|code| Fault {
                denied: code == 13,
                code: Some(code),
                occupied: self.files.contains_key(&w.dest),
                reason: format!("error {code}"),
            }));
        }
        t.outcome()
    }

    fn run(&mut self, ops: &[Operation], cancelled: bool, dry_run: bool) -> ExecStats {
        let mut stats = ExecStats::default();
        for op in ops {
            let issued = issue(op, cancelled, dry_run);
            let ok = issued != Issue::Perform || self.carry_out(op).is_ok();
            if issued != Issue::Withhold {
                self.seen.push(op.source_rel.clone());
            }
            stats.settle(op, ending(issued, ok));
        }
        stats
    }
}

#[test]
fn a_spilled_plan_executes_like_a_resident_one() {
    let files: Vec<(String, Vec<u8>)> = (0..12)
        .map(|i| (format!("a{i}.jpg"), format!("body {i}").into_bytes()))
        .collect();
    let refs: Vec<(&str, &[u8])> = files
        .iter()
        .map(|(n, b)| (n.as_str(), b.as_slice()))
        .collect();
    let ops: Vec<Operation> = (0..12)
        .map(|i| {
            op(
                &format!("a{i}.jpg"),
                &format!("out/a{i}.jpg"),
                Action::Copy,
                6,
            )
        })
        .collect();

    let mut e = env(&refs);
    let mut writer = Writer::new();
    for _ in &ops {
        writer.push();
    }
    let spill = writer.finish();
    let mut chunks = spill.chunks();
    let mut back: Vec<Operation> = Vec::new();
    while let Some(chunk) = chunks.next(ops[back.len()..back.len() + chunks.wanted()].to_vec(), false) {
        match chunk {
            Ok(part) => back.extend(part),
            Err(_) => panic!("the chunk was whole"),
        }
    }

    let stats = e.run(&back, false, false);
    assert_eq!(stats.copied, 12);
    assert_eq!(stats.failed, 0);
    for i in 0..12 {
        assert_eq!(
            e.bytes(&format!("/dst/out/a{i}.jpg")),
            format!("body {i}").into_bytes()
        );
    }
}

#[test]
fn copies_creating_parent_directories() {
    let mut e = env(&[("a.jpg", b"hello")]);
    let stats = e.run(
        &[op("a.jpg", "2026/08-August/a.jpg", Action::Copy, 5)],
        false,
        false,
    );
    assert_eq!(stats.copied, 1);
    assert_eq!(stats.failed, 0);
    assert_eq!(e.dirs, vec!["/dst/2026/08-August"]);
    assert_eq!(e.bytes("/dst/2026/08-August/a.jpg"), b"hello");
    assert!(e.files.contains_key("/src/a.jpg"), "copy keeps the source");
}

#[test]
fn preserves_the_modification_time() {
    let mut e = env(&[("a.jpg", b"hello")]);
    e.run(&[op("a.jpg", "a.jpg", Action::Copy, 5)], false, false);
    assert_eq!(
        e.files["/src/a.jpg"].mtime,
        e.files["/dst/a.jpg"].mtime
    );
}

#[test]
fn move_removes_the_source() {
    let mut e = env(&[("a.jpg", b"bytes")]);
    let stats = e.run(&[op("a.jpg", "y/a.jpg", Action::Move, 5)], false, false);
    assert_eq!(stats.moved, 1);
    assert!(!e.files.contains_key("/src/a.jpg"));
    assert_eq!(e.bytes("/dst/y/a.jpg"), b"bytes");
}

#[test]
fn overwrite_replaces_the_existing_file() {
    let mut e = env(&[("a.jpg", b"new")]);
    e.files.insert("/dst/a.jpg".into(), stored(b"old"));
    let stats = e.run(&[op("a.jpg", "a.jpg", Action::Overwrite, 3)], false, false);
    assert_eq!(stats.overwritten, 1);
    assert_eq!(e.bytes("/dst/a.jpg"), b"new");
}

#[test]
fn dry_run_writes_nothing_but_still_reports() {
    let mut e = env(&[("a.jpg", b"hello")]);
    let stats = e.run(&[op("a.jpg", "z/a.jpg", Action::Copy, 5)], false, true);
    assert_eq!(stats.copied, 1);
    assert_eq!(e.seen.len(), 1);
    assert!(!e.files.contains_key("/dst/z/a.jpg"));
}

#[test]
fn a_missing_source_fails_only_that_file() {
    let mut e = env(&[("a.jpg", b"ok")]);
    let stats = e.run(
        &[
            op("a.jpg", "a.jpg", Action::Copy, 2),
            op("gone.jpg", "gone.jpg", Action::Copy, 2),
        ],
        false,
        false,
    );
    assert_eq!(stats.copied, 1);
    assert_eq!(stats.failed, 1);
    assert!(e.files.contains_key("/dst/a.jpg"));
}

#[test]
fn a_failed_copy_leaves_no_temp_file() {
    let mut e = env(&[]);
    let stats = e.run(&[op("gone.jpg", "d/gone.jpg", Action::Copy, 2)], false, false);
    assert_eq!(stats.failed, 1);
    assert_eq!(e.dirs, vec!["/dst/d"]);
    assert!(e.files.is_empty(), "temp file survived a failure");
}

#[test]
fn tracks_temp_files_until_they_are_renamed_away() {
    let mut live = LiveTemps::new();
    let path = format!("/tmp/x/{TMP_PREFIX}probe");
    live.track(path.clone());
    assert!(live.contains(&path));
    live.untrack(&path);
    assert!(!live.contains(&path));
}

#[test]
fn a_finished_run_leaves_nothing_for_the_sweeper() {
    let mut e = env(&[("a.jpg", b"xx")]);
    assert_eq!(
        e.run(&[op("a.jpg", "d/a.jpg", Action::Copy, 2)], false, false)
            .copied,
        1
    );
    assert!(e.live.cleanup_temps().is_empty());
}

#[test]
fn cancellation_stops_issuing_work() {
    let mut e = env(&[("a.jpg", b"x")]);
    let stats = e.run(&[op("a.jpg", "a.jpg", Action::Copy, 1)], true, false);
    assert!(stats.cancelled);
    assert_eq!(stats.copied, 0);
    assert_eq!(stats.unattempted, 1);
    assert!(!e.files.contains_key("/dst/a.jpg"));
}

#[test]
fn skips_are_reported_without_touching_disk() {
    let mut o = op("a.jpg", "a.jpg", Action::Skip, 1);
    o.reason = Reason::DuplicateOfDestination;
    let mut e = env(&[("a.jpg", b"x")]);
    let stats = e.run(&[o], false, false);
    assert_eq!(stats.skipped, 1);
    assert_eq!(e.seen, vec!["a.jpg"]);
    assert!(!e.files.contains_key("/dst/a.jpg"));
}

#[test]
fn every_ended_operation_is_counted() {
    let mut stats = ExecStats::default();
    let copy = op("a", "a", Action::Copy, 10);
    stats.settle(&copy, End::Done);
    stats.settle(&copy, End::Failed);
    stats.settle(&copy, End::Unattempted);
    stats.settle(&op("b", "b", Action::Move, 5), End::Done);
    stats.lose(2);
    assert_eq!(
        stats,
        ExecStats {
            copied: 1,
            moved: 1,
            overwritten: 0,
            skipped: 0,
            failed: 3,
            bytes: 15,
            cancelled: true,
            unattempted: 1,
        }
    );
}

#[test]
fn an_operation_without_a_destination_fails() {
    let mut o = op("a.jpg", "x", Action::Copy, 1);
    o.dest_rel = None;
    let e = perform("/src", "/dst", &o, true, Platform::Unix).unwrap_err();
    assert_eq!(e.message(), "copy failed: operation has no destination");
    assert_eq!(
        classify(true, "/dst/a", "no").message(),
        "permission denied"
    );
    assert_eq!(
        classify(false, "/dst/a", "disk on fire").message(),
        "copy failed: /dst/a: disk on fire"
    );
}

#[test]
fn long_destinations_are_made_verbatim_on_windows() {
    let long = "x".repeat(300);
    let o = op("a.jpg", &long, Action::Copy, 1);
    let w = perform("C:\\s", "C:\\d", &o, true, Platform::Windows).unwrap();
    assert!(w.dest.starts_with("\\\\?\\C:\\d"));
    assert!(!w.source.starts_with("\\\\?\\"));
}

#[test]
fn only_a_rename_across_devices_falls_back_to_a_copy() {
    assert!(is_cross_device(Some(18), Platform::Unix));
    assert!(is_cross_device(Some(17), Platform::Windows));
    assert!(!is_cross_device(Some(17), Platform::Unix));
    assert!(!is_cross_device(None, Platform::Other));

    let mut e = env(&[("a.jpg", b"bytes")]);
    e.refused.push((Ask::RenameSource, 18));
    assert!(e.carry_out(&op("a.jpg", "a.jpg", Action::Move, 5)).is_ok());
    assert_eq!(e.bytes("/dst/a.jpg"), b"bytes");
    assert_eq!(e.files.len(), 1);
    assert_eq!(e.asks.last(), Some(&Ask::RemoveSource), "the source goes last");

    let mut e = env(&[("a.jpg", b"bytes")]);
    e.refused.push((Ask::RenameSource, 13));
    let failure = e.carry_out(&op("a.jpg", "a.jpg", Action::Move, 5)).unwrap_err();
    assert_eq!(failure.message(), "permission denied");
    assert_eq!(e.asks, [Ask::MakeParent, Ask::RenameSource]);
    assert_eq!(e.bytes("/src/a.jpg"), b"bytes");
}

#[test]
fn a_copy_goes_through_a_temp_file() {
    let mut e = env(&[("a.jpg", b"bytes")]);
    assert!(e.carry_out(&op("a.jpg", "a.jpg", Action::Copy, 5)).is_ok());
    assert_eq!(
        e.asks,
        [
            Ask::MakeParent,
            Ask::Track,
            Ask::OpenSource,
            Ask::CreateTemp,
            Ask::CopyBytes,
            Ask::Sync,
            Ask::ReadMetadata,
            Ask::SetTimes,
            Ask::SetPermissions,
            Ask::RenameTemp,
            Ask::Untrack,
        ]
    );
}

#[test]
fn a_rename_that_does_not_clobber_is_tried_again_on_windows() {
    for action in [Action::Move, Action::Overwrite] {
        let rename = match action {
            Action::Move => Ask::RenameSource,
            _ => Ask::RenameTemp,
        };
        let mut e = env(&[("a.jpg", b"new")]);
        e.files.insert("/dst/a.jpg".into(), stored(b"old"));
        e.platform = Platform::Windows;
        e.refused.push((rename, 5));
        assert!(e.carry_out(&op("a.jpg", "a.jpg", action, 3)).is_ok());
        assert_eq!(e.bytes("/dst/a.jpg"), b"new");
        assert!(e.asks.contains(&Ask::ClearDest));

        let mut e = env(&[("a.jpg", b"new")]);
        e.files.insert("/dst/a.jpg".into(), stored(b"old"));
        e.refused.push((rename, 5));
        assert!(e.carry_out(&op("a.jpg", "a.jpg", action, 3)).is_err());
        assert_eq!(e.bytes("/dst/a.jpg"), b"old");
        assert_eq!(e.bytes("/src/a.jpg"), b"new");
        assert!(!e.asks.contains(&Ask::ClearDest));
    }
}

/// Whatever is refused, the photo stands somewhere, whole, and no temp file stays.
#[test]
fn no_fault_loses_a_photo() {
    let steps = [
        Ask::MakeParent,
        Ask::OpenSource,
        Ask::CreateTemp,
        Ask::CopyBytes,
        Ask::Sync,
        Ask::ReadMetadata,
        Ask::SetTimes,
        Ask::SetPermissions,
        Ask::RenameTemp,
        Ask::RemoveSource,
        Ask::ClearDest,
    ];
    for platform in [Platform::Unix, Platform::Windows, Platform::Other] {
        for action in [Action::Copy, Action::Move, Action::Overwrite] {
            for step in steps {
                for code in [2, 5, 13, 17, 18] {
                    let mut e = env(&[("a.jpg", b"photo")]);
                    e.files.insert("/dst/a.jpg".into(), stored(b"old"));
                    e.platform = platform;
                    e.refused.push((step, code));
                    if action == Action::Move {
                        e.refused.push((Ask::RenameSource, code));
                    }
                    let done = e.carry_out(&op("a.jpg", "a.jpg", action, 5));
                    let here = e.files.get("/src/a.jpg").map(|f| f.bytes.clone());
                    let there = e.files.get("/dst/a.jpg").map(|f| f.bytes.clone());
                    let photo = Some(b"photo".to_vec());
                    assert!(e.files.keys().all(|p| !p.contains(TMP_PREFIX)));
                    assert!(e.live.cleanup_temps().is_empty());
                    match done {
                        Ok(()) => {
                            assert_eq!(there, photo);
                            assert_eq!(here.is_none(), action == Action::Move);
                        }
                        Err(_) => assert_eq!(here, photo),
                    }
                    assert!(
                        there == photo
                            || there == Some(b"old".to_vec())
                            || there.is_none() && platform == Platform::Windows
                    );
                }
            }
        }
    }
}

#[test]
fn what_cannot_be_made_or_unlinked_is_told() {
    let mut e = env(&[("a.jpg", b"x")]);
    e.refused.push((Ask::MakeParent, 28));
    let failure = e.carry_out(&op("a.jpg", "y/a.jpg", Action::Copy, 1)).unwrap_err();
    assert_eq!(failure.message(), "copy failed: /dst/y: error 28");

    let mut e = env(&[("a.jpg", b"x")]);
    e.refused.push((Ask::RenameSource, 18));
    e.refused.push((Ask::RemoveSource, 30));
    let failure = e.carry_out(&op("a.jpg", "y/a.jpg", Action::Move, 1)).unwrap_err();
    assert_eq!(failure.message(), "copy failed: /src/a.jpg: error 30");
    assert_eq!(e.bytes("/dst/y/a.jpg"), b"x");
    assert_eq!(e.bytes("/src/a.jpg"), b"x");
}

#[test]
fn one_worker_or_a_dry_run_needs_no_pool() {
    assert_eq!(pool_size(4, false), Some(4));
    assert_eq!(pool_size(1, false), None);
    assert_eq!(pool_size(4, true), None);
}

#[test]
fn temp_files_are_ours() {
    let path = temp_path("/dst/2026", 0xabc, 0x1f);
    assert_eq!(path, format!("/dst/2026/{TMP_PREFIX}abc1f"));
    assert_eq!(consider(&path, true), Verdict::Ours);
}

#[test]
fn the_order_of_ending_does_not_matter() {
    let ended = [
        (op("a", "a", Action::Copy, 3), End::Done),
        (op("b", "b", Action::Overwrite, 4), End::Done),
        (op("c", "c", Action::Move, 5), End::Failed),
    ];
    let mut forth = ExecStats::default();
    let mut back = ExecStats::default();
    for (o, end) in &ended {
        forth.settle(o, *end);
    }
    for (o, end) in ended.iter().rev() {
        back.settle(o, *end);
    }
    assert_eq!(forth, back);
    assert_eq!(forth.bytes, 7);
}
