//! Append-only JSONL journal. No database: one line per completed
//! operation, flushed immediately so a `kill -9` still leaves a usable file.

use crate::cities::utf8_text;
use crate::plan::{done_view, Action, Operation};
use crate::tables::TextMap;
use crate::template::text_view;
use crate::text::{chars_of, trim, trimmed};
use vstd::prelude::*;
use vstd::slice::slice_subrange;
use vstd::utf8::{decode_utf8, valid_utf8};

verus! {

pub const NEWLINE: u8 = 10;

/// One line of the journal.
#[derive(Debug, Clone, PartialEq, Eq)]
pub struct Entry {
    pub source: String,
    pub destination: String,
}

/// Record a completed operation. Skips are recorded too: on resume they are
/// as settled as a copy, and re-checking them costs a stat and a hash. An
/// operation without a destination leaves no line.
pub fn record(op: &Operation) -> (r: Option<Entry>)
    ensures
        match r {
            Some(e) => op@.dest == Some(e.destination@) && op@.source == e.source@,
            None => op@.dest is None,
        },
{
    match &op.dest_rel {
        Some(dest) => Some(Entry { source: op.source_rel.clone(), destination: dest.clone() }),
        None => None,
    }
}

/// The line for an operation that has just ended: only what was written.
pub fn record_if_done(op: &Operation, ok: bool) -> (r: Option<Entry>)
    ensures
        match r {
            Some(e) => ok && op.action != Action::Skip && op@.dest == Some(e.destination@)
                && op@.source == e.source@,
            None => !ok || op.action == Action::Skip || op@.dest is None,
        },
{
    if ok && op.action != Action::Skip {
        record(op)
    } else {
        None
    }
}

/// The pieces of a file between its newlines.
pub open spec fn byte_lines(bytes: Seq<u8>) -> Seq<Seq<u8>>
    decreases bytes.len(),
{
    if bytes.len() == 0 {
        seq![Seq::<u8>::empty()]
    } else {
        let before = byte_lines(bytes.drop_last());
        if bytes.last() == NEWLINE {
            before.push(Seq::<u8>::empty())
        } else {
            before.drop_last().push(before.last().push(bytes.last()))
        }
    }
}

/// The text of a line; a line that is not UTF-8 has none.
pub open spec fn line_text(line: Seq<u8>) -> Option<Seq<char>> {
    if valid_utf8(line) {
        Some(decode_utf8(line))
    } else {
        None
    }
}

/// The lines of a journal file. One that is not UTF-8, as a line that was cut short can
/// be, is no entry.
pub fn lines_of(bytes: &[u8]) -> (r: Vec<Option<String>>)
    ensures
        r@.len() == byte_lines(bytes@).len(),
        forall|k: int|
            0 <= k < r@.len() ==> text_view(#[trigger] r@[k]) == line_text(byte_lines(bytes@)[k]),
{
    let mut out: Vec<Option<String>> = Vec::new();
    let end = bytes.len();
    let mut start: usize = 0;
    let mut i: usize = 0;
    assert(bytes@.take(0) =~= Seq::<u8>::empty());
    assert(bytes@.subrange(0, 0) =~= Seq::<u8>::empty());
    while i < end
        invariant
            end == bytes@.len(),
            start <= i <= end,
            byte_lines(bytes@.take(i as int)).len() == out@.len() + 1,
            byte_lines(bytes@.take(i as int)).last() == bytes@.subrange(start as int, i as int),
            forall|k: int|
                0 <= k < out@.len() ==> text_view(#[trigger] out@[k]) == line_text(
                    byte_lines(bytes@.take(i as int))[k],
                ),
        decreases end - i,
    {
        let ghost before = byte_lines(bytes@.take(i as int));
        let ghost now = byte_lines(bytes@.take(i + 1));
        proof {
            assert(bytes@.take(i + 1).drop_last() =~= bytes@.take(i as int));
            assert(bytes@.take(i + 1).last() == bytes@[i as int]);
            assert forall|k: int| 0 <= k < out@.len() implies now[k] == before[k] by {}
        }
        if bytes[i] == NEWLINE {
            let ghost k = out@.len() as int;
            out.push(utf8_text(slice_subrange(bytes, start, i)));
            assert(now[k] == before.last());
            start = i + 1;
            assert(bytes@.subrange(i + 1, i + 1) =~= Seq::<u8>::empty());
        } else {
            assert(bytes@.subrange(start as int, i + 1) =~= bytes@.subrange(
                start as int,
                i as int,
            ).push(bytes@[i as int]));
        }
        i += 1;
    }
    assert(bytes@.take(end as int) =~= bytes@);
    out.push(utf8_text(slice_subrange(bytes, start, end)));
    out
}

/// Whether the last line of a file was cut short, so that a newline has to be written
/// before the next one.
pub open spec fn is_cut_short(bytes: Seq<u8>) -> bool {
    bytes.len() > 0 && bytes.last() != NEWLINE
}

pub fn needs_newline(bytes: &[u8]) -> (b: bool)
    ensures
        b == is_cut_short(bytes@),
{
    bytes.len() > 0 && bytes[bytes.len() - 1] != NEWLINE
}

proof fn lemma_line_grows(a: Seq<u8>, b: Seq<u8>)
    requires
        !b.contains(NEWLINE),
    ensures
        byte_lines(a).len() > 0,
        byte_lines(a + b) == byte_lines(a).drop_last().push(byte_lines(a).last() + b),
    decreases a.len() + b.len(),
{
    if b.len() == 0 {
        assert(a + b =~= a);
        if a.len() > 0 {
            lemma_line_grows(a.drop_last(), b);
        }
        assert(byte_lines(a).last() + b =~= byte_lines(a).last());
        assert(byte_lines(a) =~= byte_lines(a).drop_last().push(byte_lines(a).last()));
    } else {
        assert((a + b).drop_last() =~= a + b.drop_last());
        assert(b.contains(b[b.len() - 1]));
        assert forall|x: u8| b.drop_last().contains(x) implies b.contains(x) by {
            let k = choose|k: int| 0 <= k < b.len() - 1 && b.drop_last()[k] == x;
            assert(b[k] == x);
        }
        lemma_line_grows(a, b.drop_last());
        let before = byte_lines(a + b.drop_last());
        assert(before.drop_last() =~= byte_lines(a).drop_last());
        assert(before.last().push(b.last()) =~= byte_lines(a).last() + b);
    }
}

/// What is appended to a journal stands on a line of its own, however the file ended.
pub proof fn records_stand_alone(bytes: Seq<u8>, line: Seq<u8>)
    requires
        !line.contains(NEWLINE),
    ensures
        ({
            let start = if is_cut_short(bytes) {
                bytes.push(NEWLINE)
            } else {
                bytes
            };
            let after = byte_lines(start + line + seq![NEWLINE]);
            &&& after == byte_lines(start).drop_last().push(line).push(Seq::<u8>::empty())
            &&& byte_lines(start).drop_last() == (if is_cut_short(bytes) {
                byte_lines(bytes)
            } else {
                byte_lines(bytes).drop_last()
            })
        }),
{
    let start = if is_cut_short(bytes) {
        bytes.push(NEWLINE)
    } else {
        bytes
    };
    assert(bytes.push(NEWLINE).drop_last() =~= bytes);
    assert(byte_lines(start).last() =~= Seq::<u8>::empty());
    lemma_line_grows(start, line);
    let all = start + line + seq![NEWLINE];
    assert(all.drop_last() =~= start + line);
    assert(Seq::<u8>::empty() + line =~= line);
    if is_cut_short(bytes) {
        assert(byte_lines(start).drop_last() =~= byte_lines(bytes));
    }
}

/// Whether a line holds nothing.
pub fn is_blank(line: &str) -> (b: bool)
    ensures
        b == (trim(line@).len() == 0),
{
    let v = chars_of(line);
    trimmed(&v).len() == 0
}

/// What the lines say, the last word on a source being the one that counts. A
/// line that is no entry says nothing.
pub open spec fn told(lines: Seq<Option<Entry>>) -> Map<Seq<char>, Seq<char>>
    decreases lines.len(),
{
    if lines.len() == 0 {
        Map::empty()
    } else {
        match lines.last() {
            Some(e) => told(lines.drop_last()).insert(e.source@, e.destination@),
            None => told(lines.drop_last()),
        }
    }
}

/// Read a journal into the `done` map the planner consumes. Malformed lines are
/// skipped: a truncated final line is the expected shape of an interrupted run.
pub fn load(lines: Vec<Option<Entry>>) -> (r: TextMap<String>)
    ensures
        done_view(r@) == told(lines@),
{
    let mut done: TextMap<String> = TextMap::new();
    let ghost all = lines@;
    assert(done_view(done@) =~= told(all.take(0)));
    for line in it: lines
        invariant
            it.seq() == all,
            done_view(done@) == told(all.take(it.index() as int)),
    {
        let ghost i = it.index() as int;
        assert(all.take(i + 1).drop_last() =~= all.take(i));
        assert(all.take(i + 1).last() == all[i]);
        if let Some(e) = line {
            let ghost before = done_view(done@);
            let ghost (s, d) = (e.source@, e.destination@);
            done.insert(e.source, e.destination);
            assert(done_view(done@) =~= before.insert(s, d));
        }
    }
    assert(all.take(all.len() as int) =~= all);
    done
}

/// What was recorded is found again, unless a later line says otherwise.
pub proof fn records_are_found(lines: Seq<Option<Entry>>, e: Entry, later: Seq<Option<Entry>>)
    requires
        forall|k: int|
            0 <= k < later.len() ==> (#[trigger] later[k] matches Some(l) ==> l.source@
                != e.source@),
    ensures
        told(lines.push(Some(e)) + later).dom().contains(e.source@),
        told(lines.push(Some(e)) + later)[e.source@] == e.destination@,
    decreases later.len(),
{
    let all = lines.push(Some(e)) + later;
    if later.len() == 0 {
        assert(all =~= lines.push(Some(e)));
        assert(all.drop_last() =~= lines);
    } else {
        assert(all.drop_last() =~= lines.push(Some(e)) + later.drop_last());
        assert(all.last() == later.last());
        assert forall|k: int| 0 <= k < later.drop_last().len() implies (
        #[trigger] later.drop_last()[k] matches Some(l) ==> l.source@ != e.source@) by {
            assert(later.drop_last()[k] == later[k]);
        }
        records_are_found(lines, e, later.drop_last());
        assert(later[later.len() - 1] == later.last());
    }
}

} // verus!
