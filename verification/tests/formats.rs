use photorg::formats::{classify, signature_matches, FileKind};

#[test]
fn classifies_by_extension_case_insensitively() {
    assert_eq!(classify("JPG"), Some(FileKind::Image));
    assert_eq!(classify("heic"), Some(FileKind::Image));
    assert_eq!(classify("NEF"), Some(FileKind::Raw));
    assert_eq!(classify("mov"), Some(FileKind::Video));
    assert_eq!(classify("xmp"), Some(FileKind::Sidecar));
    assert_eq!(classify("txt"), None);
}

#[test]
fn recognizes_signatures() {
    let jpeg = [0xFF, 0xD8, 0xFF, 0xE0, 0, 0, 0, 0, 0, 0, 0, 0];
    assert!(signature_matches(FileKind::Image, &jpeg));

    let mut heic = [0u8; 16];
    heic[4..8].copy_from_slice(b"ftyp");
    heic[8..12].copy_from_slice(b"heic");
    assert!(signature_matches(FileKind::Image, &heic));

    let mut webp = [0u8; 16];
    webp[0..4].copy_from_slice(b"RIFF");
    webp[8..12].copy_from_slice(b"WEBP");
    assert!(signature_matches(FileKind::Image, &webp));

    assert!(signature_matches(
        FileKind::Raw,
        b"II\x2a\x00\0\0\0\0\0\0\0\0"
    ));
    assert!(!signature_matches(FileKind::Image, b"not an image"));
    assert!(!signature_matches(FileKind::Image, b"short"));
}

#[test]
fn olympus_raw_files_are_recognized() {
    assert_eq!(classify("orf"), Some(FileKind::Raw));
    assert!(signature_matches(FileKind::Raw, b"IIRO\x08\0\0\0\0\0\0\0"));
    assert!(signature_matches(FileKind::Raw, b"IIRS\x08\0\0\0\0\0\0\0"));
    assert!(signature_matches(FileKind::Raw, b"MMOR\0\0\0\x08\0\0\0\0"));
}

#[test]
fn sidecars_have_no_signature_to_fail() {
    assert!(signature_matches(FileKind::Sidecar, b""));
    assert!(!signature_matches(FileKind::Video, b""));
}
