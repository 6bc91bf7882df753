use photorg::calendar::{Date, DateTime};
use photorg::dates::DateSource;
use photorg::formats::FileKind;
use photorg::metadata::PhotoMetadata;
use photorg::scan::{arrange, collect_candidates, consider, merge, Verdict};

fn photo(path: &str) -> PhotoMetadata {
    PhotoMetadata {
        rel_path: path.into(),
        size: 1,
        kind: FileKind::Image,
        taken: Date::new(2026, 8, 19).map(DateTime::midnight),
        date_source: DateSource::Mtime,
        gps: None,
        offset_time: None,
        camera_make: None,
        camera_model: None,
        signature_ok: true,
    }
}

#[test]
fn sidecars_can_be_left_behind() {
    assert_eq!(consider("a/x.xmp", true), Verdict::Open(FileKind::Sidecar));
    assert_eq!(consider("a/x.xmp", false), Verdict::Ignored);
}

#[test]
fn only_known_kinds_are_opened() {
    let paths = ["a/b.JPG", "a/notes.txt", "noext", ".po-tmp-1f.jpg", "c.nef"];
    let (found, ignored) =
        collect_candidates(paths.iter().map(|p| p.to_string()).collect(), true);
    let names: Vec<_> = found.iter().map(|c| c.rel.as_str()).collect();
    assert_eq!(names, vec!["a/b.JPG", "c.nef"]);
    assert_eq!(found[1].kind, FileKind::Raw);
    assert_eq!(ignored, 2);
}

#[test]
fn what_was_read_is_put_in_path_order() {
    let r = arrange(
        vec![photo("b/x.jpg"), photo("a-b.jpg"), photo("a/z.jpg")],
        vec![("z".into(), "bad".into()), ("y".into(), "worse".into())],
        3,
    );
    let names: Vec<_> = r.photos.iter().map(|p| p.rel_path.as_str()).collect();
    assert_eq!(names, vec!["a/z.jpg", "a-b.jpg", "b/x.jpg"]);
    assert_eq!(r.failures[0].0, "y");
    assert_eq!(r.failures[0].1, "worse");
    assert_eq!(r.ignored, 3);
}

#[test]
fn merging_keeps_everything() {
    let (a, b) = merge((vec![1], vec!["x"]), (vec![2, 3], vec![]));
    let mut a = a;
    a.sort();
    assert_eq!(a, vec![1, 2, 3]);
    assert_eq!(b, vec!["x"]);
}

#[test]
fn the_order_of_arrival_does_not_matter() {
    let there = arrange(
        vec![photo("b/x.jpg"), photo("a.jpg"), photo("b.jpg")],
        vec![("q".into(), "1".into()), ("p".into(), "2".into())],
        7,
    );
    let back = arrange(
        vec![photo("b.jpg"), photo("b/x.jpg"), photo("a.jpg")],
        vec![("p".into(), "2".into()), ("q".into(), "1".into())],
        7,
    );
    let paths = |v: &[PhotoMetadata]| v.iter().map(|p| p.rel_path.clone()).collect::<Vec<_>>();
    assert_eq!(paths(&there.photos), paths(&back.photos));
    assert_eq!(there.failures, back.failures);
    assert_eq!(there.photos.len(), 3);
}
