//! Spilling the plan to disk.
//!
//! Adaptive grouping cannot decide anything until every record has been seen,
//! so the whole plan exists before pass 2 starts. At a million files that costs
//! ~280 MB on top of the scan records, putting peak RSS over the memory budget.
//! Above [`THRESHOLD`] photos the operations are streamed to a temp JSONL file
//! instead and pass 2 reads it back a chunk at a time.
//!
//! The file itself stands outside; what is counted and when it is an error stands
//! here.

use crate::plan::Operation;
use crate::text::{decimal, decimal_chars, push_all, push_text, text_of};
use vstd::prelude::*;

verus! {

/// Photo count above which the plan goes to disk. 250k stays around 70 MB
/// resident, which leaves the budget intact whatever the scan records cost.
pub const THRESHOLD: usize = 250_000;

/// Operations read back a chunk at a time: big enough to keep a copy pool fed,
/// small enough that the chunk never shows up in the memory figures.
pub const CHUNK: usize = 4096;

/// How many names are tried for the temp file before the plan stays in memory.
pub const ATTEMPTS: u32 = 8;

/// Whether a plan for that many photos goes to disk.
pub fn goes_to_disk(photos: usize) -> (b: bool)
    ensures
        b == (photos > THRESHOLD),
{
    photos > THRESHOLD
}

/// The name of the temp file that a process tries the given time.
pub fn file_name(pid: u32, attempt: u32) -> (r: String)
    ensures
        r@ == "po-plan-"@ + decimal(pid as nat) + seq!['-'] + decimal(attempt as nat) + ".jsonl"@,
{
    let mut v: Vec<char> = Vec::new();
    push_text(&mut v, "po-plan-");
    push_all(&mut v, &decimal_chars(pid as u64));
    v.push('-');
    push_all(&mut v, &decimal_chars(attempt as u64));
    push_text(&mut v, ".jsonl");
    assert(v@ =~= "po-plan-"@ + decimal(pid as nat) + seq!['-'] + decimal(attempt as nat)
        + ".jsonl"@);
    text_of(&v)
}

/// A plan being written out, one operation per line.
#[derive(Debug)]
pub struct Writer {
    len: usize,
}

impl Writer {
    /// How many operations have been written.
    pub closed spec fn written(self) -> nat {
        self.len as nat
    }

    pub fn new() -> (r: Writer)
        ensures
            r.written() == 0,
    {
        Writer { len: 0 }
    }

    /// One more operation has been written.
    pub fn push(&mut self)
        requires
            old(self).written() < usize::MAX,
        ensures
            final(self).written() == old(self).written() + 1,
    {
        self.len = self.len + 1;
    }

    pub fn finish(self) -> (r: Spill)
        ensures
            r.held() == self.written(),
    {
        Spill { len: self.len }
    }
}

/// A finished plan on disk.
#[derive(Debug)]
pub struct Spill {
    len: usize,
}

impl Spill {
    /// How many operations the plan has.
    pub closed spec fn held(self) -> nat {
        self.len as nat
    }

    pub fn len(&self) -> (n: usize)
        ensures
            n == self.held(),
    {
        self.len
    }

    pub fn is_empty(&self) -> (b: bool)
        ensures
            b == (self.held() == 0),
    {
        self.len == 0
    }

    /// The operations in planned order, [`CHUNK`] at a time.
    pub fn chunks(&self) -> (r: Chunks)
        ensures
            r@ == (Reading { read: 0, len: self.held(), failed: false }),
    {
        Chunks { read: 0, len: self.len, failed: false }
    }
}

/// Why a spilled plan cannot be read on.
#[derive(Debug, Clone, Copy, PartialEq, Eq, Structural)]
pub enum ChunkError {
    /// A line could not be read, or is no operation.
    Broken,
    /// Fewer lines than the writer counted.
    Short,
}

/// How far a spilled plan has been read.
pub struct Reading {
    pub read: nat,
    pub len: nat,
    pub failed: bool,
}

/// How many lines the next chunk has.
pub open spec fn next_len(r: Reading) -> nat {
    if r.failed || r.read >= r.len {
        0
    } else if r.len - r.read < CHUNK {
        (r.len - r.read) as nat
    } else {
        CHUNK as nat
    }
}

/// What comes of reading the next chunk.
pub enum Taken {
    /// Everything has been read, or reading has failed before.
    Nothing,
    /// What was read is handed out.
    Chunk,
    Failure(ChunkError),
}

/// What comes of reading `got` operations for the next chunk; `broken` tells that
/// reading ended on an error rather than at the end of the file.
pub open spec fn taken(r: Reading, got: nat, broken: bool) -> Taken {
    if next_len(r) == 0 {
        Taken::Nothing
    } else if broken {
        Taken::Failure(ChunkError::Broken)
    } else if got == 0 {
        Taken::Failure(ChunkError::Short)
    } else {
        Taken::Chunk
    }
}

/// How far the plan has been read then.
pub open spec fn reading_after(r: Reading, got: nat, broken: bool) -> Reading {
    match taken(r, got, broken) {
        Taken::Nothing => r,
        Taken::Chunk => Reading { read: r.read + got, ..r },
        Taken::Failure(_) => Reading { failed: true, ..r },
    }
}

/// Reads a spilled plan back.
#[derive(Debug)]
pub struct Chunks {
    read: usize,
    len: usize,
    failed: bool,
}

impl View for Chunks {
    type V = Reading;

    closed spec fn view(&self) -> Reading {
        Reading { read: self.read as nat, len: self.len as nat, failed: self.failed }
    }
}

impl Chunks {
    #[verifier::type_invariant]
    closed spec fn valid(self) -> bool {
        self.read <= self.len
    }

    /// How many lines to read for the next chunk.
    pub fn wanted(&self) -> (n: usize)
        ensures
            n == next_len(self@),
    {
        proof {
            use_type_invariant(self);
        }
        if self.failed || self.read >= self.len {
            0
        } else if self.len - self.read < CHUNK {
            self.len - self.read
        } else {
            CHUNK
        }
    }

    /// Operations not yet handed out, which is what an interrupted stream has
    /// to be charged for.
    pub fn remaining(&self) -> (n: usize)
        ensures
            n == self@.len - self@.read,
            self@.read <= self@.len,
    {
        proof {
            use_type_invariant(self);
        }
        self.len - self.read
    }

    /// Makes a chunk of the operations that could be read of the `wanted` lines;
    /// `broken` tells that reading ended on an error rather than at the end of
    /// the file. Fewer lines than the writer counted are a failure, rather than
    /// quietly organizing part of the plan, and after a failure there is nothing
    /// more.
    pub fn next(&mut self, ops: Vec<Operation>, broken: bool) -> (r: Option<
        Result<Vec<Operation>, ChunkError>,
    >)
        requires
            ops@.len() <= next_len(old(self)@),
        ensures
            final(self)@ == reading_after(old(self)@, ops@.len(), broken),
            match (r, taken(old(self)@, ops@.len(), broken)) {
                (None, Taken::Nothing) => true,
                (Some(Ok(chunk)), Taken::Chunk) => chunk@ == ops@,
                (Some(Err(e)), Taken::Failure(why)) => e == why,
                _ => false,
            },
    {
        proof {
            use_type_invariant(&*self);
        }
        if self.failed || self.read >= self.len {
            return None;
        }
        if broken {
            self.failed = true;
            return Some(Err(ChunkError::Broken));
        }
        if ops.len() == 0 {
            self.failed = true;
            return Some(Err(ChunkError::Short));
        }
        self.read = self.read + ops.len();
        Some(Ok(ops))
    }
}

/// A spill file: the operations on its whole lines, and whether a part of one more
/// follows them.
pub struct Pages {
    pub lines: Seq<Operation>,
    pub torn: bool,
}

/// The operations that are read of a file for the next chunk.
pub open spec fn lines_for(file: Pages, r: Reading) -> Seq<Operation> {
    let end = r.read + next_len(r);
    file.lines.subrange(
        r.read as int,
        if end <= file.lines.len() {
            end as int
        } else {
            file.lines.len() as int
        },
    )
}

/// Whether reading them ends on the torn line.
pub open spec fn is_torn_for(file: Pages, r: Reading) -> bool {
    file.torn && r.read + next_len(r) > file.lines.len()
}

/// The chunks that are handed out of a file from here on, and how far it has been read
/// in the end.
pub open spec fn handed_out(file: Pages, r: Reading) -> (Seq<Seq<Operation>>, Reading)
    decreases r.len - r.read,
{
    let ops = lines_for(file, r);
    let after = reading_after(r, ops.len(), is_torn_for(file, r));
    if taken(r, ops.len(), is_torn_for(file, r)) is Chunk && r.read < after.read <= r.len {
        let (chunks, end) = handed_out(file, after);
        (seq![ops] + chunks, end)
    } else {
        (seq![], after)
    }
}

/// A spilled plan comes back as it was written: the chunks of a file with every line,
/// put together, are the operations in order, and every chunk but the last is full.
pub proof fn spilled_plans_come_back(ops: Seq<Operation>, read: nat)
    requires
        read <= ops.len(),
    ensures
        ({
            let file = Pages { lines: ops, torn: false };
            let (chunks, end) = handed_out(file, Reading { read, len: ops.len(), failed: false });
            &&& chunks.flatten() == ops.skip(read as int)
            &&& end == (Reading { read: ops.len(), len: ops.len(), failed: false })
            &&& forall|k: int| 0 <= k < chunks.len() ==> 0 < (#[trigger] chunks[k]).len() <= CHUNK
            &&& forall|k: int|
                0 <= k < chunks.len() - 1 ==> (#[trigger] chunks[k]).len() == CHUNK
        }),
    decreases ops.len() - read,
{
    let file = Pages { lines: ops, torn: false };
    let r = Reading { read, len: ops.len(), failed: false };
    if read < ops.len() {
        let part = lines_for(file, r);
        let n = part.len();
        spilled_plans_come_back(ops, read + n);
        let (rest, end) = handed_out(file, Reading { read: read + n, ..r });
        let (chunks, _) = handed_out(file, r);
        assert(chunks == seq![part] + rest);
        assert(chunks.drop_first() =~= rest);
        assert(part + ops.skip((read + n) as int) =~= ops.skip(read as int));
        assert forall|k: int| 0 <= k < chunks.len() implies 0 < (#[trigger] chunks[k]).len()
            <= CHUNK by {
            if k > 0 {
                assert(chunks[k] == rest[k - 1]);
            }
        }
        assert forall|k: int| 0 <= k < chunks.len() - 1 implies (
        #[trigger] chunks[k]).len() == CHUNK by {
            if k > 0 {
                assert(chunks[k] == rest[k - 1]);
            } else {
                assert(rest.len() > 0);
                if n < CHUNK {
                    assert(read + n == ops.len());
                }
            }
        }
    } else {
        assert(ops.skip(read as int) =~= Seq::<Operation>::empty());
    }
}

/// A spilled plan that has lost operations never just ends short: what is handed out is
/// a beginning of what is left, then reading fails, and what remains is everything that
/// was not handed out.
pub proof fn cut_plans_end_in_a_failure(file: Pages, read: nat, len: nat)
    requires
        read <= file.lines.len() < len,
    ensures
        ({
            let (chunks, end) = handed_out(file, Reading { read, len, failed: false });
            &&& end.failed
            &&& end.len == len
            &&& read <= end.read <= file.lines.len()
            &&& chunks.flatten() == file.lines.subrange(read as int, end.read as int)
            &&& end.len - end.read == len - read - chunks.flatten().len()
        }),
    decreases len - read,
{
    let r = Reading { read, len, failed: false };
    let part = lines_for(file, r);
    let n = part.len();
    let broken = is_torn_for(file, r);
    if !broken && n > 0 {
        cut_plans_end_in_a_failure(file, read + n, len);
        let (rest, end) = handed_out(file, Reading { read: read + n, ..r });
        let (chunks, _) = handed_out(file, r);
        assert(chunks == seq![part] + rest);
        assert(chunks.drop_first() =~= rest);
        assert(part + file.lines.subrange((read + n) as int, end.read as int)
            =~= file.lines.subrange(read as int, end.read as int));
    } else {
        assert(file.lines.subrange(read as int, read as int) =~= Seq::<Operation>::empty());
    }
}

} // verus!
