use photorg::plan::{Action, Operation, Reason};
use photorg::spill::{file_name, goes_to_disk, ChunkError, Spill, Writer, CHUNK, THRESHOLD};

fn op(n: usize) -> Operation {
    Operation {
        source_rel: format!("in/{n}.jpg"),
        dest_rel: Some(format!("2026/{n}.jpg")),
        action: Action::Copy,
        reason: Reason::Planned,
        bytes: n as u64,
        duplicate_of: None,
    }
}

/// The operations that were put aside, and how many there are.
fn spill(count: usize) -> (Vec<Operation>, Spill) {
    let mut w = Writer::new();
    let mut held = Vec::new();
    for i in 0..count {
        held.push(op(i));
        w.push();
    }
    (held, w.finish())
}

fn read(held: &[Operation], s: &Spill) -> Vec<Vec<Operation>> {
    let mut at = 0;
    let mut out = Vec::new();
    let mut chunks = s.chunks();
    loop {
        let n = chunks.wanted();
        let ops = held[at..at + n].to_vec();
        at += n;
        match chunks.next(ops, false) {
            Some(Ok(chunk)) => out.push(chunk),
            Some(Err(_)) => panic!("the chunk was whole"),
            None => return out,
        }
    }
}

#[test]
fn round_trips_in_order() {
    let (held, s) = spill(10);
    let back: Vec<Operation> = read(&held, &s).into_iter().flatten().collect();
    assert_eq!(back.len(), 10);
    assert_eq!(back[7].source_rel, "in/7.jpg");
    assert_eq!(back[7].bytes, 7);
    assert_eq!(back[7].dest_rel.as_deref(), Some("2026/7.jpg"));
}

#[test]
fn splits_into_chunks() {
    let (held, s) = spill(CHUNK + 5);
    let sizes: Vec<usize> = read(&held, &s).iter().map(|c| c.len()).collect();
    assert_eq!(sizes, vec![CHUNK, 5]);
}

#[test]
fn empty_plan_yields_nothing() {
    let (held, s) = spill(0);
    assert!(s.is_empty());
    assert_eq!(read(&held, &s).len(), 0);
}

#[test]
fn truncation_is_an_error_not_a_short_read() {
    let (_, s) = spill(4);
    let mut chunks = s.chunks();
    // Nothing could be read back.
    assert!(matches!(
        chunks.next(Vec::new(), false),
        Some(Err(ChunkError::Short))
    ));
    assert_eq!(chunks.remaining(), 4);
    assert!(chunks.next(Vec::new(), false).is_none());
}

#[test]
fn a_line_that_does_not_parse_is_an_error() {
    let (held, s) = spill(4);
    let mut chunks = s.chunks();
    assert!(matches!(
        chunks.next(held[..2].to_vec(), true),
        Some(Err(ChunkError::Broken))
    ));
    assert_eq!(chunks.remaining(), 4);
}

#[test]
fn only_large_plans_go_to_disk() {
    assert!(!goes_to_disk(THRESHOLD));
    assert!(goes_to_disk(THRESHOLD + 1));
    assert_eq!(spill(3).1.len(), 3);
    assert_ne!(file_name(7, 0), file_name(7, 1));
}
