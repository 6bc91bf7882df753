use photorg::calendar::{Date, DateTime};
use photorg::companion::group;
use photorg::dates::DateSource;
use photorg::formats::FileKind;
use photorg::metadata::PhotoMetadata;

fn photo(path: &str, kind: FileKind, src: DateSource) -> PhotoMetadata {
    PhotoMetadata {
        rel_path: path.into(),
        size: 1,
        kind,
        taken: Date::new(2026, 8, 19).map(DateTime::midnight),
        date_source: src,
        gps: None,
        offset_time: None,
        camera_make: None,
        camera_model: None,
        signature_ok: true,
    }
}

#[test]
fn groups_live_photo_pairs() {
    let mut photos = vec![
        photo(
            "a/IMG_0001.HEIC",
            FileKind::Image,
            DateSource::ExifDateTimeOriginal,
        ),
        photo("a/IMG_0001.MOV", FileKind::Video, DateSource::Mtime),
        photo("a/IMG_0002.JPG", FileKind::Image, DateSource::Filename),
    ];
    photos.sort_by(|a, b| a.rel_path.cmp(&b.rel_path));
    let groups = group(&photos);
    assert_eq!(groups.len(), 2);
    assert_eq!(groups[0].members.len(), 2);
    assert_eq!(photos[groups[0].primary].kind, FileKind::Image);
}

#[test]
fn raw_jpeg_pair_takes_the_best_date() {
    let photos = vec![
        photo("a/DSC01.JPG", FileKind::Image, DateSource::Mtime),
        photo(
            "a/DSC01.NEF",
            FileKind::Raw,
            DateSource::ExifDateTimeOriginal,
        ),
    ];
    let groups = group(&photos);
    assert_eq!(groups.len(), 1);
    assert_eq!(photos[groups[0].primary].kind, FileKind::Raw);
}

#[test]
fn orphan_sidecars_are_not_shippable() {
    let photos = vec![photo("a/edit.xmp", FileKind::Sidecar, DateSource::Mtime)];
    let groups = group(&photos);
    assert!(!groups[0].is_shippable(&photos, true));
}

#[test]
fn standalone_video_needs_the_flag() {
    let photos = vec![photo("a/clip.mp4", FileKind::Video, DateSource::Mtime)];
    let groups = group(&photos);
    assert!(!groups[0].is_shippable(&photos, false));
    assert!(groups[0].is_shippable(&photos, true));
}

#[test]
fn a_photo_in_name_only_is_not_shippable() {
    let mut p = photo("a/notes.jpg", FileKind::Image, DateSource::Mtime);
    p.signature_ok = false;
    let photos = vec![p];
    let groups = group(&photos);
    assert!(!groups[0].is_shippable(&photos, true));
}

#[test]
fn companions_of_two_folders_stay_apart() {
    let photos = vec![
        photo("a/IMG_1.JPG", FileKind::Image, DateSource::Mtime),
        photo("a/img_1.xmp", FileKind::Sidecar, DateSource::Mtime),
        photo("b/IMG_1.JPG", FileKind::Image, DateSource::Mtime),
    ];
    let groups = group(&photos);
    assert_eq!(groups.len(), 2);
    assert_eq!(groups[0].members, vec![0, 1]);
    assert_eq!(groups[1].members, vec![2]);
}
