use photorg::calendar::{Date, DateTime};
use photorg::cities::Place;
use photorg::config::{DedupMode, Granularity, LocationDepth, Mode, OnConflict, Options};
use photorg::dates::DateSource;
use photorg::dedup::{edges, full_hash, partial_hash, Digest, HashQuery, SizeIndex};
use photorg::formats::FileKind;
use photorg::geocode::Locator;
use photorg::journal::{load, record_if_done};
use photorg::metadata::{Gps, PhotoMetadata};
use photorg::plan::{build, Action, Operation, OperationPlan, Ops, PlanStats, Query, Reason, Step};
use photorg::tables::TextMap;
use photorg::FatalError;
use std::collections::BTreeMap;

fn photo(path: &str, size: u64, y: i32, m: u32, d: u32) -> PhotoMetadata {
    PhotoMetadata {
        rel_path: path.into(),
        size,
        kind: FileKind::Image,
        taken: Date::new(y, m, d).and_then(|d| DateTime::new(d, 12, 0, 0)),
        date_source: DateSource::ExifDateTimeOriginal,
        gps: None,
        offset_time: None,
        camera_make: None,
        camera_model: None,
        signature_ok: true,
    }
}

/// A disk in memory, with a source tree under `/src` and a destination under
/// `/dst`.
struct Fixture {
    files: BTreeMap<String, Vec<u8>>,
    opts: Options,
}

fn fixture(files: &[(&str, &[u8])]) -> Fixture {
    Fixture {
        files: files
            .iter()
            .map(|(name, bytes)| (format!("/src/{name}"), bytes.to_vec()))
            .collect(),
        opts: Options {
            source: "/src".into(),
            dest: "/dst".into(),
            ..Default::default()
        },
    }
}

impl Fixture {
    fn write(&mut self, path: &str, bytes: &[u8]) {
        self.files.insert(path.into(), bytes.to_vec());
    }

    fn has(&self, path: &str) -> bool {
        let inside = format!("{path}/");
        self.files.contains_key(path) || self.files.keys().any(|p| p.starts_with(&inside))
    }

    fn digest(&self, q: &HashQuery) -> Option<Digest> {
        match q {
            HashQuery::Partial { path, size } => {
                let content = self.files.get(path)?;
                let (head, tail) = edges(*size);
                let head = &content[..content.len().min(head as usize)];
                let tail = &content[content.len() - (tail as usize)..];
                Some(partial_hash(*size, head, tail))
            }
            HashQuery::Full { path } => self.files.get(path).map(|c| full_hash(c)),
        }
    }

    fn index(&self) -> SizeIndex {
        let mut index = SizeIndex::new();
        for (path, bytes) in &self.files {
            if path.starts_with("/dst/") {
                index.insert(bytes.len() as u64, path.clone());
            }
        }
        index
    }
}

fn plan_with(
    photos: Vec<PhotoMetadata>,
    f: &Fixture,
    opts: Options,
    locator: Option<Locator>,
    done: TextMap<String>,
    nearest: impl Fn(Gps) -> Option<Place>,
) -> OperationPlan {
    let (source_root, dest_root, mode) = (opts.source.clone(), opts.dest.clone(), opts.mode);
    let mut planner = build(photos, opts, locator, done, f.index()).unwrap();
    let mut ops: Vec<Operation> = Vec::new();
    loop {
        match planner.step() {
            Step::Planned(op) => ops.push(op),
            Step::Need(Query::Exists(path)) => {
                let there = f.has(&path);
                planner.answer_exists(path, there);
            }
            Step::Need(Query::Hash(q)) => {
                let digest = f.digest(&q);
                planner.answer_hash(q, digest);
            }
            Step::Need(Query::Nearest(g)) => {
                let place = nearest(g);
                planner.answer_nearest(g, place);
            }
            Step::Finished => break,
            Step::NoFreeName => panic!("no free name"),
        }
    }
    let stats: PlanStats = planner.stats();
    OperationPlan {
        source_root,
        dest_root,
        mode,
        ops: Ops::Memory(ops),
        stats,
    }
}

fn plan(photos: Vec<PhotoMetadata>, f: &Fixture) -> OperationPlan {
    plan_with(photos, f, f.opts.clone(), None, TextMap::new(), |_| None)
}

fn plan_as(photos: Vec<PhotoMetadata>, f: &Fixture, opts: Options) -> OperationPlan {
    plan_with(photos, f, opts, None, TextMap::new(), |_| None)
}

fn rel(op: &Operation) -> String {
    op.dest_rel.clone().unwrap_or_default()
}

#[test]
fn renders_the_month_preset() {
    let f = fixture(&[("a.jpg", b"a")]);
    let photos = vec![photo("a.jpg", 1, 2026, 8, 19)];
    let plan = plan(photos, &f);
    assert_eq!(
        rel(&plan.ops.resident().unwrap()[0]),
        "2026/08-August/a.jpg"
    );
    assert_eq!(plan.ops.resident().unwrap()[0].action, Action::Copy);
}

#[test]
fn two_sources_with_one_destination_are_renamed_not_lost() {
    let f = fixture(&[("one/a.jpg", b"first"), ("two/a.jpg", b"second")]);
    let photos = vec![
        photo("one/a.jpg", 5, 2026, 8, 19),
        photo("two/a.jpg", 6, 2026, 8, 19),
    ];
    let plan = plan(photos, &f);
    let dests: Vec<_> = plan.ops.resident().unwrap().iter().map(rel).collect();
    assert_eq!(dests[0], "2026/08-August/a.jpg");
    assert_eq!(dests[1], "2026/08-August/a_1.jpg");
    assert_eq!(plan.stats.renamed, 1);
}

#[test]
fn identical_bytes_under_different_names_are_one_copy() {
    let f = fixture(&[("a.jpg", b"same"), ("a (1).jpg", b"same")]);
    let photos = vec![
        photo("a (1).jpg", 4, 2026, 8, 19),
        photo("a.jpg", 4, 2026, 8, 19),
    ];
    let plan = plan(photos, &f);
    assert_eq!(plan.stats.pending, 1);
    assert_eq!(plan.stats.duplicates, 1);
    let dup = plan
        .ops
        .resident()
        .unwrap()
        .iter()
        .find(|o| o.reason == Reason::DuplicateOfSource)
        .unwrap();
    assert!(dup.duplicate_of.is_some());
}

#[test]
fn a_rerun_finds_its_own_output_instead_of_renaming() {
    let mut f = fixture(&[("a.jpg", b"payload")]);
    let photos = vec![photo("a.jpg", 7, 2026, 8, 19)];
    let first = plan(photos.clone(), &f);
    // Simulate the executed copy.
    let dest = first
        .dest_abs(&first.ops.resident().unwrap()[0])
        .unwrap();
    f.write(&dest, b"payload");

    let second = plan(photos, &f);
    assert_eq!(
        second.ops.resident().unwrap()[0].reason,
        Reason::DuplicateOfDestination
    );
    assert_eq!(second.stats.pending, 0);
}

#[test]
fn different_bytes_at_the_destination_get_a_suffix() {
    let mut f = fixture(&[("a.jpg", b"new")]);
    let photos = vec![photo("a.jpg", 3, 2026, 8, 19)];
    f.write("/dst/2026/08-August/a.jpg", b"old");

    let plan = plan(photos, &f);
    assert_eq!(
        rel(&plan.ops.resident().unwrap()[0]),
        "2026/08-August/a_1.jpg"
    );
}

#[test]
fn on_conflict_skip_leaves_the_existing_file_alone() {
    let mut f = fixture(&[("a.jpg", b"new")]);
    let mut opts = f.opts.clone();
    opts.on_conflict = OnConflict::Skip;
    let photos = vec![photo("a.jpg", 3, 2026, 8, 19)];
    f.write("/dst/2026/08-August/a.jpg", b"old");

    let plan = plan_as(photos, &f, opts);
    assert_eq!(plan.ops.resident().unwrap()[0].action, Action::Skip);
    assert_eq!(plan.ops.resident().unwrap()[0].reason, Reason::ExistingFile);
}

#[test]
fn companions_land_in_one_folder() {
    let f = fixture(&[("IMG_1.jpg", b"j"), ("IMG_1.xmp", b"x")]);
    let mut photos = vec![
        photo("IMG_1.jpg", 1, 2026, 8, 19),
        photo("IMG_1.xmp", 1, 2021, 1, 1),
    ];
    photos[1].kind = FileKind::Sidecar;
    photos[1].date_source = DateSource::Mtime;
    let plan = plan(photos, &f);
    assert_eq!(
        rel(&plan.ops.resident().unwrap()[0]),
        "2026/08-August/IMG_1.jpg"
    );
    assert_eq!(
        rel(&plan.ops.resident().unwrap()[1]),
        "2026/08-August/IMG_1.xmp"
    );
}

#[test]
fn a_renamed_companion_stays_in_the_folder() {
    let mut f = fixture(&[("IMG_1.jpg", b"j"), ("IMG_1.xmp", b"x")]);
    f.write("/dst/2026/08-August/IMG_1.jpg", b"other");
    let mut photos = vec![
        photo("IMG_1.jpg", 1, 2026, 8, 19),
        photo("IMG_1.xmp", 1, 2021, 1, 1),
    ];
    photos[1].kind = FileKind::Sidecar;
    photos[1].date_source = DateSource::Mtime;
    let plan = plan(photos, &f);
    let dests: Vec<_> = plan.ops.resident().unwrap().iter().map(rel).collect();
    assert_eq!(
        dests,
        ["2026/08-August/IMG_1_1.jpg", "2026/08-August/IMG_1.xmp"]
    );
}

#[test]
fn orphan_sidecars_are_not_planned() {
    let f = fixture(&[("edit.xmp", b"x")]);
    let mut p = photo("edit.xmp", 1, 2026, 8, 19);
    p.kind = FileKind::Sidecar;
    let plan = plan(vec![p], &f);
    assert!(plan.ops.is_empty());
    assert_eq!(plan.stats.unshippable, 1);
}

#[test]
fn unknown_dates_go_to_their_own_folder() {
    let f = fixture(&[("a.jpg", b"a")]);
    let mut p = photo("a.jpg", 1, 2026, 8, 19);
    p.taken = None;
    p.date_source = DateSource::Unknown;
    let plan = plan(vec![p], &f);
    assert_eq!(rel(&plan.ops.resident().unwrap()[0]), "unknown-date/a.jpg");
}

#[test]
fn resume_skips_recorded_operations() {
    let f = fixture(&[("a.jpg", b"a")]);
    let mut done: TextMap<String> = TextMap::new();
    done.insert("a.jpg".into(), "2026/08-August/a.jpg".into());
    let plan = plan_with(
        vec![photo("a.jpg", 1, 2026, 8, 19)],
        &f,
        f.opts.clone(),
        None,
        done,
        |_| None,
    );
    assert_eq!(plan.ops.resident().unwrap()[0].reason, Reason::AlreadyDone);
    assert_eq!(plan.stats.pending, 0);
}

#[test]
fn resume_skips_what_the_journal_already_recorded() {
    let f = fixture(&[("a.jpg", b"aaa"), ("b/a.jpg", b"bbb"), ("c.jpg", b"aaa")]);
    let photos = || {
        vec![
            photo("a.jpg", 3, 2026, 8, 19),
            photo("b/a.jpg", 3, 2026, 8, 19),
            photo("c.jpg", 3, 2026, 8, 19),
        ]
    };
    let first = plan(photos(), &f);
    assert_eq!(first.stats.pending, 2);
    let lines = first.ops.resident().unwrap().iter().map(|op| record_if_done(op, true));

    // Nothing is at the destination, so only the journal can prevent the copies.
    let done = load(lines.collect());
    let second = plan_with(photos(), &f, f.opts.clone(), None, done, |_| None);
    assert_eq!(second.stats.pending, 0, "resume re-planned finished work");
    assert_eq!(second.stats.resumed, 2);
    assert_eq!(second.stats.duplicates, 1);
}

#[test]
fn duplicates_are_told_below_the_root() {
    for root in ["/", "/dst/", "//dst"] {
        let mut f = fixture(&[("a.jpg", b"aaa")]);
        let there = format!("{}/2026/x.jpg", root.trim_end_matches('/'));
        f.write(&there, b"aaa");
        f.opts.dest = root.into();
        let p = vec![photo("a.jpg", 3, 2026, 8, 19)];
        let mut index = SizeIndex::new();
        index.insert(3, there);
        let mut planner = build(p, f.opts.clone(), None, TextMap::new(), index).unwrap();
        let op = loop {
            match planner.step() {
                Step::Need(Query::Hash(q)) => {
                    let digest = f.digest(&q);
                    planner.answer_hash(q, digest);
                }
                Step::Planned(op) => break op,
                _ => panic!("not a duplicate"),
            }
        };
        assert_eq!(rel(&op), "2026/x.jpg");
    }
}

#[test]
fn applying_a_plan_twice_is_a_no_op() {
    let mut f = fixture(&[("a.jpg", b"aaa"), ("b/a.jpg", b"bbb")]);
    let photos = vec![
        photo("a.jpg", 3, 2026, 8, 19),
        photo("b/a.jpg", 3, 2026, 8, 19),
    ];
    let first = plan(photos.clone(), &f);
    let ops = first.ops.resident().unwrap();
    for i in first.pending().unwrap() {
        let dest = first.dest_abs(&ops[i]).unwrap();
        let bytes = f.files[&first.source_abs(&ops[i])].clone();
        f.write(&dest, &bytes);
    }
    let second = plan(photos, &f);
    assert_eq!(second.stats.pending, 0);
    assert_eq!(second.stats.duplicates, 2);
}

#[test]
fn every_source_appears_exactly_once_with_a_unique_destination() {
    let files: Vec<(String, Vec<u8>)> = (0..25)
        .map(|i| {
            (
                format!("d{}/img{i}.jpg", i % 5),
                format!("body-{i}").into_bytes(),
            )
        })
        .collect();
    let refs: Vec<(&str, &[u8])> = files
        .iter()
        .map(|(n, b)| (n.as_str(), b.as_slice()))
        .collect();
    let f = fixture(&refs);
    let photos: Vec<_> = files
        .iter()
        .map(|(n, b)| photo(n, b.len() as u64, 2026, 8, 19))
        .collect();
    let count = photos.len();
    let plan = plan(photos, &f);
    assert_eq!(plan.ops.len(), count);
    let ops = plan.ops.resident().unwrap();
    let mut dests: Vec<_> = plan.pending().unwrap().iter().map(|i| rel(&ops[*i])).collect();
    let total = dests.len();
    dests.sort();
    dests.dedup();
    assert_eq!(dests.len(), total, "destinations must be unique");
}

#[test]
fn names_differing_only_in_case_never_clobber() {
    let f = fixture(&[("a/IMG_0001.JPG", b"one"), ("b/img_0001.jpg", b"three")]);
    let photos = vec![
        photo("a/IMG_0001.JPG", 3, 2021, 6, 1),
        photo("b/img_0001.jpg", 5, 2021, 6, 1),
    ];
    let plan = plan(photos, &f);
    let dests: Vec<_> = plan.ops.resident().unwrap().iter().map(rel).collect();
    assert_eq!(
        dests,
        vec!["2021/06-June/IMG_0001.JPG", "2021/06-June/img_0001_1.jpg"]
    );
}

#[test]
fn decomposed_names_are_composed() {
    let f = fixture(&[("Ce\u{301}sar.jpg", b"x")]);
    let plan = plan(vec![photo("Ce\u{301}sar.jpg", 1, 2021, 6, 1)], &f);
    let ops = plan.ops.resident().unwrap();
    assert_eq!(ops.len(), 1, "one file was organized");
    assert!(rel(&ops[0]).ends_with("C\u{e9}sar.jpg"));
}

#[test]
fn characters_windows_rejects_are_replaced_everywhere() {
    let f = fixture(&[("wh:at?*.jpg", b"x")]);
    let plan = plan(vec![photo("wh:at?*.jpg", 1, 2021, 6, 1)], &f);
    assert_eq!(
        rel(&plan.ops.resident().unwrap()[0]),
        "2021/06-June/wh-at--.jpg"
    );
}

#[test]
fn windows_reserved_names_are_prefixed_everywhere() {
    let f = fixture(&[("con.jpg", b"x")]);
    let plan = plan(vec![photo("con.jpg", 1, 2021, 6, 1)], &f);
    assert_eq!(
        rel(&plan.ops.resident().unwrap()[0]),
        "2021/06-June/_con.jpg"
    );
}

#[test]
fn conflict_modes_decide_what_happens_to_an_occupied_name() {
    let mut f = fixture(&[("dated.jpg", b"the photo")]);
    f.write("/dst/2021/06-June/dated.jpg", b"not the same bytes at all");
    let photos = vec![photo("dated.jpg", 9, 2021, 6, 1)];

    let renamed = plan(photos.clone(), &f);
    assert_eq!(
        rel(&renamed.ops.resident().unwrap()[0]),
        "2021/06-June/dated_1.jpg"
    );
    assert_eq!(renamed.stats.renamed, 1);

    let mut opts = f.opts.clone();
    opts.on_conflict = OnConflict::Skip;
    let skipped = plan_as(photos.clone(), &f, opts);
    assert_eq!(skipped.stats.pending, 0);
    assert_eq!(skipped.stats.skipped_existing, 1);

    let mut opts = f.opts.clone();
    opts.on_conflict = OnConflict::Overwrite;
    opts.force = true;
    let overwritten = plan_as(photos, &f, opts);
    assert_eq!(
        overwritten.ops.resident().unwrap()[0].action,
        Action::Overwrite
    );
    assert_eq!(
        rel(&overwritten.ops.resident().unwrap()[0]),
        "2021/06-June/dated.jpg"
    );
}

#[test]
fn a_custom_template_controls_the_whole_layout() {
    let f = fixture(&[("dated.jpg", b"x")]);
    let mut opts = f.opts.clone();
    opts.template = Some("{year}/{year}-{month:02}".into());
    let plan = plan_as(vec![photo("dated.jpg", 1, 2021, 6, 1)], &f, opts);
    assert_eq!(
        rel(&plan.ops.resident().unwrap()[0]),
        "2021/2021-06/dated.jpg"
    );
}

#[test]
fn adaptive_grouping_collapses_thin_years() {
    let f = fixture(&[("a.jpg", b"x"), ("b.jpg", b"yy")]);
    let mut opts = f.opts.clone();
    opts.group = Granularity::Adaptive;
    let photos = vec![
        photo("a.jpg", 1, 2021, 6, 1),
        photo("b.jpg", 2, 2026, 12, 31),
    ];
    let plan = plan_as(photos, &f, opts);
    let dests: Vec<_> = plan.ops.resident().unwrap().iter().map(rel).collect();
    assert_eq!(dests, vec!["2021/a.jpg", "2026/b.jpg"]);
}

#[test]
fn move_mode_empties_the_source() {
    let f = fixture(&[("a.jpg", b"same"), ("b.jpg", b"same")]);
    let mut opts = f.opts.clone();
    opts.mode = Mode::Move;
    let photos = vec![photo("a.jpg", 4, 2021, 6, 1), photo("b.jpg", 4, 2021, 6, 1)];
    let plan = plan_as(photos, &f, opts);
    let ops = plan.ops.resident().unwrap();
    assert_eq!(ops[0].action, Action::Move);
    assert_eq!(ops[1].action, Action::Skip);
    assert_eq!(ops[1].reason, Reason::DuplicateOfSource);
}

#[test]
fn a_dry_run_plans_what_a_real_run_plans() {
    let mut f = fixture(&[("a.jpg", b"one"), ("b/a.jpg", b"three")]);
    f.write("/dst/2021/06-June/a.jpg", b"zero");
    let photos = vec![photo("a.jpg", 3, 2021, 6, 1), photo("b/a.jpg", 5, 2021, 6, 1)];
    let mut opts = f.opts.clone();
    opts.dry_run = true;
    let dry = plan_as(photos.clone(), &f, opts);
    let wet = plan(photos, &f);
    assert_eq!(dry.ops.resident().unwrap(), wet.ops.resident().unwrap());
}

#[test]
fn without_dedup_identical_files_are_both_shipped() {
    let f = fixture(&[("a.jpg", b"same"), ("b.jpg", b"same")]);
    let mut opts = f.opts.clone();
    opts.dedup = DedupMode::Off;
    let photos = vec![photo("a.jpg", 4, 2021, 6, 1), photo("b.jpg", 4, 2021, 6, 1)];
    let plan = plan_as(photos, &f, opts);
    assert_eq!(plan.stats.pending, 2);
    assert_eq!(plan.stats.pending_bytes, 8);
}

#[test]
fn places_come_from_the_nearest_city() {
    let f = fixture(&[("zagreb.jpg", b"x"), ("nowhere.jpg", b"yy")]);
    let mut opts = f.opts.clone();
    opts.location = Some(LocationDepth::City);
    let mut here = photo("zagreb.jpg", 1, 2026, 5, 1);
    let point = Gps {
        lat_bits: 45.815f32.to_bits(),
        lon_bits: 15.982f32.to_bits(),
        cell_lat: 45815,
        cell_lon: 15982,
    };
    here.gps = Some(point);
    let plan = plan_with(
        vec![here, photo("nowhere.jpg", 2, 2026, 5, 1)],
        &f,
        opts,
        Some(Locator::new(LocationDepth::City)),
        TextMap::new(),
        |g| {
            (g == point).then_some(Place {
                name: "Zagreb".into(),
                region: "City of Zagreb".into(),
                cc: "HR".into(),
            })
        },
    );
    let dests: Vec<_> = plan.ops.resident().unwrap().iter().map(rel).collect();
    assert_eq!(dests[0], "2026/05-May/Croatia/City of Zagreb/Zagreb/zagreb.jpg");
    assert_eq!(dests[1], "2026/05-May/nowhere.jpg");
}

#[test]
fn a_bad_template_stops_the_plan() {
    let opts = Options {
        template: Some("{year".into()),
        ..Default::default()
    };
    let r = build(Vec::new(), opts, None, TextMap::new(), SizeIndex::new());
    assert!(matches!(r, Err(FatalError::Template(_))));
}

#[test]
fn numbered_names_are_tried_in_order() {
    let mut f = fixture(&[("a.jpg", b"new")]);
    f.write("/dst/2026/08-August/a.jpg", b"old");
    f.write("/dst/2026/08-August/a_1.jpg", b"older");
    f.write("/dst/2026/08-August/A_2.JPG", b"oldest");
    let plan = plan(vec![photo("a.jpg", 3, 2026, 8, 19)], &f);
    assert_eq!(
        rel(&plan.ops.resident().unwrap()[0]),
        "2026/08-August/a_2.jpg"
    );
}

#[test]
fn twins_of_resumed_files_are_duplicates() {
    let f = fixture(&[("a.jpg", b"same"), ("b.jpg", b"same"), ("c.jpg", b"else")]);
    let mut done: TextMap<String> = TextMap::new();
    done.insert("a.jpg".into(), "kept/a.jpg".into());
    let photos = vec![
        photo("a.jpg", 4, 2021, 6, 1),
        photo("b.jpg", 4, 2021, 6, 1),
        photo("c.jpg", 4, 2021, 6, 1),
    ];
    let plan = plan_with(photos, &f, f.opts.clone(), None, done, |_| None);
    let ops = plan.ops.resident().unwrap();
    assert_eq!(ops[1].reason, Reason::DuplicateOfSource);
    assert_eq!(ops[1].duplicate_of.as_deref(), Some("a.jpg"));
    assert_eq!(ops[1].dest_rel.as_deref(), Some("kept/a.jpg"));
    assert_eq!(plan.pending(), Some(vec![2]));
    assert_eq!((plan.stats.resumed, plan.stats.duplicates), (1, 1));
    assert_eq!(plan.stats.groups, 3);
}

#[test]
fn the_same_input_gives_the_same_names() {
    let mut f = fixture(&[("a/x.jpg", b"1"), ("b/X.jpg", b"22"), ("c/x.JPG", b"333")]);
    f.write("/dst/2021/06-June/x_1.jpg", b"4444");
    let photos = vec![
        photo("a/x.jpg", 1, 2021, 6, 1),
        photo("b/X.jpg", 2, 2021, 6, 1),
        photo("c/x.JPG", 3, 2021, 6, 1),
    ];
    let first = plan(photos.clone(), &f);
    let again = plan(photos, &f);
    assert_eq!(first.ops.resident().unwrap(), again.ops.resident().unwrap());
    let dests: Vec<_> = first.ops.resident().unwrap().iter().map(rel).collect();
    assert_eq!(
        dests,
        vec![
            "2021/06-June/x.jpg",
            "2021/06-June/X_1.jpg",
            "2021/06-June/x_2.JPG"
        ]
    );
}

#[test]
fn an_unreadable_photo_is_planned_all_the_same() {
    let f = fixture(&[("a.jpg", b"same")]);
    let photos = vec![photo("a.jpg", 4, 2021, 6, 1), photo("gone.jpg", 4, 2021, 6, 1)];
    let plan = plan(photos, &f);
    assert_eq!(plan.stats.pending, 2);
    assert_eq!(plan.stats.pending_bytes, 8);
}

#[test]
fn no_question_is_asked_twice_for_one_photo() {
    let mut f = fixture(&[("a.jpg", b"new"), ("b.jpg", b"two"), ("c.jpg", b"new")]);
    f.write("/dst/x.jpg", b"old");
    f.write("/dst/y.jpg", b"odd");
    f.write("/dst/2026/08-August/a.jpg", b"other");
    f.write("/dst/2026/08-August/a_1.jpg", b"others");
    let photos = vec![
        photo("a.jpg", 3, 2026, 8, 19),
        photo("b.jpg", 3, 2026, 8, 19),
        photo("c.jpg", 3, 2026, 8, 19),
    ];
    let mut planner = build(photos, f.opts.clone(), None, TextMap::new(), f.index()).unwrap();
    let mut asked: Vec<String> = Vec::new();
    let mut planned = 0;
    loop {
        match planner.step() {
            Step::Planned(_) => {
                asked.clear();
                planned += 1;
            }
            Step::Need(q) => {
                let told = format!("{q:?}");
                assert!(!asked.contains(&told), "asked twice: {told}");
                asked.push(told);
                match q {
                    Query::Exists(path) => {
                        let there = f.has(&path);
                        planner.answer_exists(path, there);
                    }
                    Query::Hash(q) => {
                        let digest = f.digest(&q);
                        planner.answer_hash(q, digest);
                    }
                    Query::Nearest(g) => planner.answer_nearest(g, None),
                }
            }
            Step::Finished => break,
            Step::NoFreeName => panic!("no free name"),
        }
    }
    assert_eq!(planned, 3);
}

#[test]
fn a_place_that_was_told_is_not_asked_for_again() {
    let f = fixture(&[("a.jpg", b"a"), ("b.jpg", b"b"), ("c.jpg", b"c")]);
    let here = Gps {
        lat_bits: 1,
        lon_bits: 1,
        cell_lat: 1,
        cell_lon: 1,
    };
    let there = Gps {
        lat_bits: 2,
        lon_bits: 2,
        cell_lat: 2,
        cell_lon: 2,
    };
    let mut photos = vec![
        photo("a.jpg", 1, 2026, 8, 19),
        photo("b.jpg", 1, 2026, 8, 19),
        photo("c.jpg", 1, 2026, 8, 19),
    ];
    photos[0].gps = Some(here);
    photos[1].gps = Some(there);
    photos[2].gps = Some(here);
    let mut opts = f.opts.clone();
    opts.location = Some(LocationDepth::Country);
    let locator = Some(Locator::new(LocationDepth::Country));
    let mut planner = build(photos, opts, locator, TextMap::new(), f.index()).unwrap();
    let mut asked: Vec<Gps> = Vec::new();
    while let Step::Need(Query::Nearest(g)) = planner.step() {
        asked.push(g);
        planner.answer_nearest(g, None);
    }
    assert_eq!(asked, vec![here, there]);
}
