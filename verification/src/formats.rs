//! Extension filtering and signature validation.
//!
//! Detection order is cheap-first: extension filter, then a signature check
//! performed on bytes already read for EXIF. At 1M files, sniffing every file
//! separately would cost 1M extra opens.

use crate::text::{chars_of, lower, lowered, same};
use vstd::prelude::*;

verus! {

#[derive(Debug, Clone, Copy, PartialEq, Eq, Hash, PartialOrd, Ord, Structural)]
pub enum FileKind {
    Image,
    Raw,
    Video,
    Sidecar,
}

pub open spec fn is_image_ext(e: Seq<char>) -> bool {
    e == "jpg"@ || e == "jpeg"@ || e == "png"@ || e == "tif"@ || e == "tiff"@ || e == "webp"@ || e
        == "heic"@ || e == "heif"@ || e == "avif"@
}

/// TIFF-derived RAW formats. CR3 is ISOBMFF and deferred.
pub open spec fn is_raw_ext(e: Seq<char>) -> bool {
    e == "nef"@ || e == "arw"@ || e == "dng"@ || e == "orf"@ || e == "raf"@ || e == "cr2"@
}

pub open spec fn is_video_ext(e: Seq<char>) -> bool {
    e == "mov"@ || e == "mp4"@ || e == "m4v"@ || e == "avi"@ || e == "mts"@ || e == "3gp"@ || e
        == "mpg"@
}

pub open spec fn is_sidecar_ext(e: Seq<char>) -> bool {
    e == "xmp"@ || e == "aae"@
}

/// The kind of a file by its extension, whatever the case of its letters.
pub open spec fn kind_of(ext: Seq<char>) -> Option<FileKind> {
    let e = lower(ext);
    if is_image_ext(e) {
        Some(FileKind::Image)
    } else if is_raw_ext(e) {
        Some(FileKind::Raw)
    } else if is_video_ext(e) {
        Some(FileKind::Video)
    } else if is_sidecar_ext(e) {
        Some(FileKind::Sidecar)
    } else {
        None
    }
}

fn is(v: &[char], text: &str) -> (b: bool)
    ensures
        b == (v@ == text@),
{
    same(v, &chars_of(text))
}

/// Classify by extension alone. `None` means "not our business".
pub fn classify(extension: &str) -> (r: Option<FileKind>)
    ensures
        r == kind_of(extension@),
{
    let e = lowered(&chars_of(extension));
    if is(&e, "jpg") || is(&e, "jpeg") || is(&e, "png") || is(&e, "tif") || is(&e, "tiff") || is(
        &e,
        "webp",
    ) || is(&e, "heic") || is(&e, "heif") || is(&e, "avif") {
        Some(FileKind::Image)
    } else if is(&e, "nef") || is(&e, "arw") || is(&e, "dng") || is(&e, "orf") || is(&e, "raf")
        || is(&e, "cr2") {
        Some(FileKind::Raw)
    } else if is(&e, "mov") || is(&e, "mp4") || is(&e, "m4v") || is(&e, "avi") || is(&e, "mts")
        || is(&e, "3gp") || is(&e, "mpg") {
        Some(FileKind::Video)
    } else if is(&e, "xmp") || is(&e, "aae") {
        Some(FileKind::Sidecar)
    } else {
        None
    }
}

/// Whether `mark` stands in the bytes at `at`.
pub open spec fn marked(head: Seq<u8>, at: int, mark: Seq<u8>) -> bool {
    at + mark.len() <= head.len() && head.subrange(at, at + mark.len()) == mark
}

pub open spec fn is_isobmff(head: Seq<u8>) -> bool {
    marked(head, 4, seq![0x66u8, 0x74, 0x79, 0x70])
}

pub open spec fn is_riff(head: Seq<u8>) -> bool {
    marked(head, 0, seq![0x52u8, 0x49, 0x46, 0x46])
}

/// A JPEG, PNG, TIFF, BigTIFF, Olympus, WebP, ISOBMFF (HEIC, HEIF, AVIF) or
/// Fujifilm container.
pub open spec fn is_photo_head(head: Seq<u8>) -> bool {
    ||| marked(head, 0, seq![0xffu8, 0xd8, 0xff])
    ||| marked(head, 0, seq![0x89u8, 0x50, 0x4e, 0x47, 0x0d, 0x0a, 0x1a, 0x0a])
    ||| marked(head, 0, seq![0x49u8, 0x49, 0x2a, 0x00])
    ||| marked(head, 0, seq![0x4du8, 0x4d, 0x00, 0x2a])
    ||| marked(head, 0, seq![0x49u8, 0x49, 0x2b, 0x00])
    ||| marked(head, 0, seq![0x4du8, 0x4d, 0x00, 0x2b])
    ||| marked(head, 0, seq![0x49u8, 0x49, 0x52, 0x4f])
    ||| marked(head, 0, seq![0x49u8, 0x49, 0x52, 0x53])
    ||| marked(head, 0, seq![0x4du8, 0x4d, 0x4f, 0x52])
    ||| is_riff(head) && marked(head, 8, seq![0x57u8, 0x45, 0x42, 0x50])
    ||| is_isobmff(head)
    ||| marked(
        head,
        0,
        seq![0x46u8, 0x55, 0x4a, 0x49, 0x46, 0x49, 0x4c, 0x4d, 0x43, 0x43, 0x44],
    )
}

/// An ISOBMFF, RIFF or MPEG container.
pub open spec fn is_video_head(head: Seq<u8>) -> bool {
    is_isobmff(head) || is_riff(head) || marked(head, 0, seq![0x00u8, 0x00, 0x01])
}

/// Whether the first bytes of a file are those of its kind.
pub open spec fn head_fits(kind: FileKind, head: Seq<u8>) -> bool {
    match kind {
        FileKind::Sidecar => true,
        FileKind::Video => head.len() >= 12 && is_video_head(head),
        FileKind::Image | FileKind::Raw => head.len() >= 12 && is_photo_head(head),
    }
}

fn has_mark(head: &[u8], at: usize, mark: &[u8]) -> (b: bool)
    requires
        at <= 8,
        mark@.len() <= 12,
    ensures
        b == marked(head@, at as int, mark@),
{
    if at + mark.len() > head.len() {
        return false;
    }
    let mut i: usize = 0;
    while i < mark.len()
        invariant
            at <= 8,
            mark@.len() <= 12,
            at + mark@.len() <= head@.len(),
            i <= mark@.len(),
            forall|k: int| 0 <= k < i ==> head@[at + k] == mark@[k],
        decreases mark@.len() - i,
    {
        if head[at + i] != mark[i] {
            assert(head@.subrange(at as int, at + mark@.len())[i as int] == head@[at + i]);
            return false;
        }
        i += 1;
    }
    assert(head@.subrange(at as int, at + mark@.len()) =~= mark@);
    true
}

fn photo_head(head: &[u8], isobmff: bool, riff: bool) -> (b: bool)
    requires
        isobmff == is_isobmff(head@),
        riff == is_riff(head@),
    ensures
        b == is_photo_head(head@),
{
    let jpeg: [u8; 3] = [0xff, 0xd8, 0xff];
    let png: [u8; 8] = [0x89, 0x50, 0x4e, 0x47, 0x0d, 0x0a, 0x1a, 0x0a];
    let tiff_le: [u8; 4] = [0x49, 0x49, 0x2a, 0x00];
    let tiff_be: [u8; 4] = [0x4d, 0x4d, 0x00, 0x2a];
    let big_tiff_le: [u8; 4] = [0x49, 0x49, 0x2b, 0x00];
    let big_tiff_be: [u8; 4] = [0x4d, 0x4d, 0x00, 0x2b];
    let orf_le: [u8; 4] = [0x49, 0x49, 0x52, 0x4f];
    let orf_le_s: [u8; 4] = [0x49, 0x49, 0x52, 0x53];
    let orf_be: [u8; 4] = [0x4d, 0x4d, 0x4f, 0x52];
    let webp: [u8; 4] = [0x57, 0x45, 0x42, 0x50];
    let raf: [u8; 11] = [0x46, 0x55, 0x4a, 0x49, 0x46, 0x49, 0x4c, 0x4d, 0x43, 0x43, 0x44];
    proof {
        assert(jpeg@ =~= seq![0xffu8, 0xd8, 0xff]);
        assert(png@ =~= seq![0x89u8, 0x50, 0x4e, 0x47, 0x0d, 0x0a, 0x1a, 0x0a]);
        assert(tiff_le@ =~= seq![0x49u8, 0x49, 0x2a, 0x00]);
        assert(tiff_be@ =~= seq![0x4du8, 0x4d, 0x00, 0x2a]);
        assert(big_tiff_le@ =~= seq![0x49u8, 0x49, 0x2b, 0x00]);
        assert(big_tiff_be@ =~= seq![0x4du8, 0x4d, 0x00, 0x2b]);
        assert(orf_le@ =~= seq![0x49u8, 0x49, 0x52, 0x4f]);
        assert(orf_le_s@ =~= seq![0x49u8, 0x49, 0x52, 0x53]);
        assert(orf_be@ =~= seq![0x4du8, 0x4d, 0x4f, 0x52]);
        assert(webp@ =~= seq![0x57u8, 0x45, 0x42, 0x50]);
        assert(raf@ =~= seq![0x46u8, 0x55, 0x4a, 0x49, 0x46, 0x49, 0x4c, 0x4d, 0x43, 0x43, 0x44]);
    }
    has_mark(head, 0, &jpeg) || has_mark(head, 0, &png) || has_mark(head, 0, &tiff_le) || has_mark(
        head,
        0,
        &tiff_be,
    ) || has_mark(head, 0, &big_tiff_le) || has_mark(head, 0, &big_tiff_be) || has_mark(
        head,
        0,
        &orf_le,
    ) || has_mark(head, 0, &orf_le_s) || has_mark(head, 0, &orf_be) || (riff && has_mark(
        head,
        8,
        &webp,
    )) || isobmff || has_mark(head, 0, &raf)
}

/// Does `head` look like a container we understand?
///
/// Sidecars are plain text/XML and are not signature-checked. A `false` here
/// downgrades the file rather than failing the run.
pub fn signature_matches(kind: FileKind, head: &[u8]) -> (b: bool)
    ensures
        b == head_fits(kind, head@),
{
    if kind == FileKind::Sidecar {
        return true;
    }
    if head.len() < 12 {
        return false;
    }
    let ftyp: [u8; 4] = [0x66, 0x74, 0x79, 0x70];
    let riff_mark: [u8; 4] = [0x52, 0x49, 0x46, 0x46];
    let mpeg: [u8; 3] = [0x00, 0x00, 0x01];
    proof {
        assert(ftyp@ =~= seq![0x66u8, 0x74, 0x79, 0x70]);
        assert(riff_mark@ =~= seq![0x52u8, 0x49, 0x46, 0x46]);
        assert(mpeg@ =~= seq![0x00u8, 0x00, 0x01]);
    }
    let isobmff = has_mark(head, 4, &ftyp);
    let riff = has_mark(head, 0, &riff_mark);
    match kind {
        FileKind::Image | FileKind::Raw => photo_head(head, isobmff, riff),
        FileKind::Video => isobmff || riff || has_mark(head, 0, &mpeg),
        FileKind::Sidecar => true,
    }
}

/// Bytes to read from the head of a file for the signature check.
pub const SIGNATURE_BYTES: usize = 16;

/// The extensions of images, in small letters.
pub open spec fn image_extensions() -> Seq<Seq<char>> {
    seq![
        "jpg"@,
        "jpeg"@,
        "png"@,
        "tif"@,
        "tiff"@,
        "webp"@,
        "heic"@,
        "heif"@,
        "avif"@,
    ]
}

/// The extensions of raw files, in small letters.
pub open spec fn raw_extensions() -> Seq<Seq<char>> {
    seq![
        "nef"@,
        "arw"@,
        "dng"@,
        "orf"@,
        "raf"@,
        "cr2"@,
    ]
}

/// The extensions of videos, in small letters.
pub open spec fn video_extensions() -> Seq<Seq<char>> {
    seq![
        "mov"@,
        "mp4"@,
        "m4v"@,
        "avi"@,
        "mts"@,
        "3gp"@,
        "mpg"@,
    ]
}

/// The extensions of sidecars, in small letters.
pub open spec fn sidecar_extensions() -> Seq<Seq<char>> {
    seq![
        "xmp"@,
        "aae"@,
    ]
}

/// A file is of the kind whose extensions hold its own, whatever the case of its letters;
/// a file with any other extension is of no kind.
pub proof fn kinds_go_by_their_extensions(ext: Seq<char>)
    ensures
        kind_of(ext) == Some(FileKind::Image) <==> image_extensions().contains(lower(ext)),
        kind_of(ext) == Some(FileKind::Raw) <==> raw_extensions().contains(lower(ext)),
        kind_of(ext) == Some(FileKind::Video) <==> video_extensions().contains(lower(ext)),
        kind_of(ext) == Some(FileKind::Sidecar) <==> sidecar_extensions().contains(lower(ext)),
{
    reveal_strlit("jpg");
    reveal_strlit("jpeg");
    reveal_strlit("png");
    reveal_strlit("tif");
    reveal_strlit("tiff");
    reveal_strlit("webp");
    reveal_strlit("heic");
    reveal_strlit("heif");
    reveal_strlit("avif");
    reveal_strlit("nef");
    reveal_strlit("arw");
    reveal_strlit("dng");
    reveal_strlit("orf");
    reveal_strlit("raf");
    reveal_strlit("cr2");
    reveal_strlit("mov");
    reveal_strlit("mp4");
    reveal_strlit("m4v");
    reveal_strlit("avi");
    reveal_strlit("mts");
    reveal_strlit("3gp");
    reveal_strlit("mpg");
    reveal_strlit("xmp");
    reveal_strlit("aae");
    let e = lower(ext);
    let (images, raws) = (image_extensions(), raw_extensions());
    let (videos, sidecars) = (video_extensions(), sidecar_extensions());
    assert(images[0] == "jpg"@);
    assert(images[1] == "jpeg"@);
    assert(images[2] == "png"@);
    assert(images[3] == "tif"@);
    assert(images[4] == "tiff"@);
    assert(images[5] == "webp"@);
    assert(images[6] == "heic"@);
    assert(images[7] == "heif"@);
    assert(images[8] == "avif"@);
    assert(raws[0] == "nef"@);
    assert(raws[1] == "arw"@);
    assert(raws[2] == "dng"@);
    assert(raws[3] == "orf"@);
    assert(raws[4] == "raf"@);
    assert(raws[5] == "cr2"@);
    assert(videos[0] == "mov"@);
    assert(videos[1] == "mp4"@);
    assert(videos[2] == "m4v"@);
    assert(videos[3] == "avi"@);
    assert(videos[4] == "mts"@);
    assert(videos[5] == "3gp"@);
    assert(videos[6] == "mpg"@);
    assert(sidecars[0] == "xmp"@);
    assert(sidecars[1] == "aae"@);
    lemma_kinds_are_disjoint(e);
}

/// No extension is of two kinds.
proof fn lemma_kinds_are_disjoint(e: Seq<char>)
    ensures
        is_image_ext(e) ==> !is_raw_ext(e) && !is_video_ext(e) && !is_sidecar_ext(e),
        is_raw_ext(e) ==> !is_video_ext(e) && !is_sidecar_ext(e),
        is_video_ext(e) ==> !is_sidecar_ext(e),
{
    reveal_strlit("jpg");
    reveal_strlit("jpeg");
    reveal_strlit("png");
    reveal_strlit("tif");
    reveal_strlit("tiff");
    reveal_strlit("webp");
    reveal_strlit("heic");
    reveal_strlit("heif");
    reveal_strlit("avif");
    reveal_strlit("nef");
    reveal_strlit("arw");
    reveal_strlit("dng");
    reveal_strlit("orf");
    reveal_strlit("raf");
    reveal_strlit("cr2");
    reveal_strlit("mov");
    reveal_strlit("mp4");
    reveal_strlit("m4v");
    reveal_strlit("avi");
    reveal_strlit("mts");
    reveal_strlit("3gp");
    reveal_strlit("mpg");
    reveal_strlit("xmp");
    reveal_strlit("aae");
    assert(e == "jpg"@ ==> e.len() == 3 && e[0] == 'j' && e[1] == 'p' && e[2] == 'g');
    assert(e == "jpeg"@ ==> e.len() == 4 && e[0] == 'j' && e[1] == 'p' && e[2] == 'e');
    assert(e == "png"@ ==> e.len() == 3 && e[0] == 'p' && e[1] == 'n' && e[2] == 'g');
    assert(e == "tif"@ ==> e.len() == 3 && e[0] == 't' && e[1] == 'i' && e[2] == 'f');
    assert(e == "tiff"@ ==> e.len() == 4 && e[0] == 't' && e[1] == 'i' && e[2] == 'f');
    assert(e == "webp"@ ==> e.len() == 4 && e[0] == 'w' && e[1] == 'e' && e[2] == 'b');
    assert(e == "heic"@ ==> e.len() == 4 && e[0] == 'h' && e[1] == 'e' && e[2] == 'i');
    assert(e == "heif"@ ==> e.len() == 4 && e[0] == 'h' && e[1] == 'e' && e[2] == 'i');
    assert(e == "avif"@ ==> e.len() == 4 && e[0] == 'a' && e[1] == 'v' && e[2] == 'i');
    assert(e == "nef"@ ==> e.len() == 3 && e[0] == 'n' && e[1] == 'e' && e[2] == 'f');
    assert(e == "arw"@ ==> e.len() == 3 && e[0] == 'a' && e[1] == 'r' && e[2] == 'w');
    assert(e == "dng"@ ==> e.len() == 3 && e[0] == 'd' && e[1] == 'n' && e[2] == 'g');
    assert(e == "orf"@ ==> e.len() == 3 && e[0] == 'o' && e[1] == 'r' && e[2] == 'f');
    assert(e == "raf"@ ==> e.len() == 3 && e[0] == 'r' && e[1] == 'a' && e[2] == 'f');
    assert(e == "cr2"@ ==> e.len() == 3 && e[0] == 'c' && e[1] == 'r' && e[2] == '2');
    assert(e == "mov"@ ==> e.len() == 3 && e[0] == 'm' && e[1] == 'o' && e[2] == 'v');
    assert(e == "mp4"@ ==> e.len() == 3 && e[0] == 'm' && e[1] == 'p' && e[2] == '4');
    assert(e == "m4v"@ ==> e.len() == 3 && e[0] == 'm' && e[1] == '4' && e[2] == 'v');
    assert(e == "avi"@ ==> e.len() == 3 && e[0] == 'a' && e[1] == 'v' && e[2] == 'i');
    assert(e == "mts"@ ==> e.len() == 3 && e[0] == 'm' && e[1] == 't' && e[2] == 's');
    assert(e == "3gp"@ ==> e.len() == 3 && e[0] == '3' && e[1] == 'g' && e[2] == 'p');
    assert(e == "mpg"@ ==> e.len() == 3 && e[0] == 'm' && e[1] == 'p' && e[2] == 'g');
    assert(e == "xmp"@ ==> e.len() == 3 && e[0] == 'x' && e[1] == 'm' && e[2] == 'p');
    assert(e == "aae"@ ==> e.len() == 3 && e[0] == 'a' && e[1] == 'a' && e[2] == 'e');
}

/// The case of an extension's letters does not matter.
pub proof fn kinds_ignore_case(a: Seq<char>, b: Seq<char>)
    requires
        lower(a) == lower(b),
    ensures
        kind_of(a) == kind_of(b),
{
}

/// Whether the bytes start with these four.
pub open spec fn begins_with(head: Seq<u8>, a: u8, b: u8, c: u8, d: u8) -> bool {
    head.len() >= 4 && head[0] == a && head[1] == b && head[2] == c && head[3] == d
}

proof fn lemma_marked(head: Seq<u8>, at: int, mark: Seq<u8>)
    requires
        0 <= at,
    ensures
        marked(head, at, mark) <==> at + mark.len() <= head.len() && forall|k: int|
            0 <= k < mark.len() ==> #[trigger] mark[k] == head[at + k],
{
    if at + mark.len() <= head.len() {
        let part = head.subrange(at, at + mark.len());
        if part == mark {
            assert forall|k: int| 0 <= k < mark.len() implies #[trigger] mark[k] == head[at + k] by {
                assert(part[k] == head[at + k]);
            }
        }
        if forall|k: int| 0 <= k < mark.len() ==> #[trigger] mark[k] == head[at + k] {
            assert(part =~= mark);
        }
    }
}

/// A photo of one of the common containers, a JPEG, a PNG, a TIFF of either byte order or
/// an ISO media file, is what its name says, be it an image or a raw file.
pub proof fn common_photos_fit(kind: FileKind, head: Seq<u8>)
    requires
        kind == FileKind::Image || kind == FileKind::Raw,
        head.len() >= 12,
        head[0] == 0xff && head[1] == 0xd8 && head[2] == 0xff || begins_with(
            head,
            0x89,
            0x50,
            0x4e,
            0x47,
        ) && begins_with(head.skip(4), 0x0d, 0x0a, 0x1a, 0x0a) || begins_with(
            head,
            0x49,
            0x49,
            0x2a,
            0x00,
        ) || begins_with(head, 0x4d, 0x4d, 0x00, 0x2a) || begins_with(
            head.skip(4),
            0x66,
            0x74,
            0x79,
            0x70,
        ) || begins_with(head, 0x52, 0x49, 0x46, 0x46) && begins_with(
            head.skip(8),
            0x57,
            0x45,
            0x42,
            0x50,
        ),
    ensures
        head_fits(kind, head),
{
    lemma_marked(head, 0, seq![0xffu8, 0xd8, 0xff]);
    lemma_marked(head, 0, seq![0x89u8, 0x50, 0x4e, 0x47, 0x0d, 0x0a, 0x1a, 0x0a]);
    lemma_marked(head, 0, seq![0x49u8, 0x49, 0x2a, 0x00]);
    lemma_marked(head, 0, seq![0x4du8, 0x4d, 0x00, 0x2a]);
    lemma_marked(head, 4, seq![0x66u8, 0x74, 0x79, 0x70]);
    lemma_marked(head, 0, seq![0x52u8, 0x49, 0x46, 0x46]);
    lemma_marked(head, 8, seq![0x57u8, 0x45, 0x42, 0x50]);
}

/// A file of plain text is no photo and no video, whatever its name says: one that starts
/// with white space, or with a small letter or a digit and goes on without the mark of an
/// ISO media file. Nor is a file of fewer than twelve bytes.
pub proof fn plain_text_fits_no_medium(kind: FileKind, head: Seq<u8>)
    requires
        kind != FileKind::Sidecar,
        head.len() < 12 || (0x09 <= head[0] <= 0x0d || head[0] == 0x20 || 0x30 <= head[0] <= 0x39
            || 0x61 <= head[0] <= 0x7a) && !begins_with(head.skip(4), 0x66, 0x74, 0x79, 0x70),
    ensures
        !head_fits(kind, head),
{
    if head.len() >= 12 {
        lemma_marked(head, 0, seq![0xffu8, 0xd8, 0xff]);
        lemma_marked(head, 0, seq![0x89u8, 0x50, 0x4e, 0x47, 0x0d, 0x0a, 0x1a, 0x0a]);
        lemma_marked(head, 0, seq![0x49u8, 0x49, 0x2a, 0x00]);
        lemma_marked(head, 0, seq![0x4du8, 0x4d, 0x00, 0x2a]);
        lemma_marked(head, 0, seq![0x49u8, 0x49, 0x2b, 0x00]);
        lemma_marked(head, 0, seq![0x4du8, 0x4d, 0x00, 0x2b]);
        lemma_marked(head, 0, seq![0x49u8, 0x49, 0x52, 0x4f]);
        lemma_marked(head, 0, seq![0x49u8, 0x49, 0x52, 0x53]);
        lemma_marked(head, 0, seq![0x4du8, 0x4d, 0x4f, 0x52]);
        lemma_marked(head, 0, seq![0x52u8, 0x49, 0x46, 0x46]);
        let raf = seq![0x46u8, 0x55, 0x4a, 0x49, 0x46, 0x49, 0x4c, 0x4d, 0x43, 0x43, 0x44];
        lemma_marked(head, 0, raf);
        lemma_marked(head, 0, seq![0x00u8, 0x00, 0x01]);
        lemma_marked(head, 4, seq![0x66u8, 0x74, 0x79, 0x70]);
        assert(seq![0xffu8, 0xd8, 0xff][0] == 0xff);
        assert(seq![0x89u8, 0x50, 0x4e, 0x47, 0x0d, 0x0a, 0x1a, 0x0a][0] == 0x89);
        assert(seq![0x49u8, 0x49, 0x2a, 0x00][0] == 0x49);
        assert(seq![0x4du8, 0x4d, 0x00, 0x2a][0] == 0x4d);
        assert(seq![0x49u8, 0x49, 0x2b, 0x00][0] == 0x49);
        assert(seq![0x4du8, 0x4d, 0x00, 0x2b][0] == 0x4d);
        assert(seq![0x49u8, 0x49, 0x52, 0x4f][0] == 0x49);
        assert(seq![0x49u8, 0x49, 0x52, 0x53][0] == 0x49);
        assert(seq![0x4du8, 0x4d, 0x4f, 0x52][0] == 0x4d);
        assert(seq![0x52u8, 0x49, 0x46, 0x46][0] == 0x52);
        assert(raf[0] == 0x46);
        assert(seq![0x00u8, 0x00, 0x01][0] == 0x00);
        let ftyp = seq![0x66u8, 0x74, 0x79, 0x70];
        if marked(head, 4, ftyp) {
            assert(ftyp[0] == head[4] && ftyp[1] == head[5]);
            assert(ftyp[2] == head[6] && ftyp[3] == head[7]);
        }
    }
}

/// The bytes that are read of a file's start decide: what follows does not matter.
pub proof fn the_first_bytes_decide(kind: FileKind, head: Seq<u8>)
    requires
        head.len() >= SIGNATURE_BYTES,
    ensures
        head_fits(kind, head) == head_fits(kind, head.take(SIGNATURE_BYTES as int)),
{
    let start = head.take(SIGNATURE_BYTES as int);
    assert forall|at: int, mark: Seq<u8>| 0 <= at && at + mark.len() <= 16 implies #[trigger] marked(
        head,
        at,
        mark,
    ) == marked(start, at, mark) by {
        assert(head.subrange(at, at + mark.len()) =~= start.subrange(at, at + mark.len()));
    }
}

} // verus!
