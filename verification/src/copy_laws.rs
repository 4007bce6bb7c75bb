//! What a copy comes to, whatever happens on the way.

use vstd::prelude::*;

use crate::copy::{FileCopy, FileStep, ReadAt, StreamCopy, StreamStep};

verus! {

/// What a copy from a stream works on.
#[verifier::ext_equal]
pub struct StreamWorld {
    /// Everything that the stream gives before it ends.
    pub stream: Seq<u8>,
    /// How much of that has been read or left out.
    pub pos: int,
    /// The bytes that were read last.
    pub held: Seq<u8>,
    /// What the file holds.
    pub file: Seq<u8>,
}

impl StreamWorld {
    /// The position lies within the stream.
    pub open spec fn valid(self) -> bool {
        0 <= self.pos <= self.stream.len()
    }

    /// Whether a step can have this outcome: the stream gives no more than it has.
    pub open spec fn allows(self, step: StreamStep, worked: bool) -> bool {
        match step {
            StreamStep::Read(n) => worked ==> self.pos + n <= self.stream.len(),
            StreamStep::Skip(n) => worked ==> self.pos + n <= self.stream.len(),
            _ => true,
        }
    }

    /// What is left of the world after a step with this outcome.
    pub open spec fn after(self, step: StreamStep, worked: bool) -> StreamWorld {
        if !worked {
            self
        } else {
            match step {
                StreamStep::Create(_) => StreamWorld { file: Seq::empty(), ..self },
                StreamStep::Read(n) => StreamWorld {
                    held: self.stream.subrange(self.pos, self.pos + n),
                    pos: self.pos + n,
                    ..self
                },
                StreamStep::Write(_) => StreamWorld { file: self.file + self.held, ..self },
                StreamStep::Skip(n) => StreamWorld { pos: self.pos + n, ..self },
                _ => self,
            }
        }
    }
}

/// How far a copy is after steps with these outcomes, and what the world is then.
pub open spec fn stream_run(copy: StreamCopy, world: StreamWorld, outcomes: Seq<bool>) -> (
    StreamCopy,
    StreamWorld,
)
    decreases outcomes.len(),
{
    if outcomes.len() == 0 {
        (copy, world)
    } else {
        let (c, w) = stream_run(copy, world, outcomes.drop_last());
        (c.next(outcomes.last()), w.after(c.step, outcomes.last()))
    }
}

/// Whether steps can have these outcomes one after the other.
pub open spec fn stream_run_possible(
    copy: StreamCopy,
    world: StreamWorld,
    outcomes: Seq<bool>,
) -> bool
    decreases outcomes.len(),
{
    outcomes.len() > 0 ==> {
        let (c, w) = stream_run(copy, world, outcomes.drop_last());
        &&& stream_run_possible(copy, world, outcomes.drop_last())
        &&& w.allows(c.step, outcomes.last())
    }
}

/// What holds of a copy and its world at any time, where the copy started in the world `start`.
pub open spec fn stream_in_step(copy: StreamCopy, world: StreamWorld, start: StreamWorld) -> bool {
    let seen = start.stream.subrange(start.pos, world.pos);
    &&& copy.valid()
    &&& world.valid()
    &&& start.valid()
    &&& world.stream == start.stream
    &&& start.pos <= world.pos
    &&& world.pos + copy.remaining == start.pos + copy.size
    &&& !copy.write_failed ==> match copy.step {
        StreamStep::Create(_) => world.pos == start.pos,
        StreamStep::Read(_) => world.file == seen,
        StreamStep::Write(n) => world.file + world.held == seen,
        StreamStep::Skip(_) => true,
        StreamStep::Flush => world.file == seen,
        StreamStep::Done => world.file == seen,
        StreamStep::Broken => true,
    }
}

/// A single step keeps a copy and its world in step.
pub proof fn lemma_stream_step(
    copy: StreamCopy,
    world: StreamWorld,
    start: StreamWorld,
    worked: bool,
)
    requires
        stream_in_step(copy, world, start),
        world.allows(copy.step, worked),
    ensures
        stream_in_step(copy.next(worked), world.after(copy.step, worked), start),
        copy.next(worked).size == copy.size,
{
    let next = world.after(copy.step, worked);
    let seen = start.stream.subrange(start.pos, world.pos);
    let seen_next = start.stream.subrange(start.pos, next.pos);
    if worked {
        match copy.step {
            StreamStep::Create(_) => {
                assert(next.file =~= seen_next);
            },
            StreamStep::Read(n) => {
                assert(seen_next =~= seen + next.held);
            },
            _ => {},
        }
    }
}

/// The copy of an entry from a stream, once it is done, has taken exactly the contents of the
/// entry from the stream, whatever could not be written; and unless something could not be written
/// the file holds exactly those contents. At no time has it taken more.
pub proof fn law_stream_copy(size: u64, start: StreamWorld, outcomes: Seq<bool>)
    requires
        start.valid(),
        stream_run_possible(StreamCopy::begin(size), start, outcomes),
    ensures
        ({
            let (copy, world) = stream_run(StreamCopy::begin(size), start, outcomes);
            &&& start.pos <= world.pos <= start.pos + size
            &&& copy.step is Done ==> world.pos == start.pos + size <= start.stream.len()
            &&& copy.step is Done && !copy.write_failed ==> world.file == start.stream.subrange(
                start.pos,
                start.pos + size,
            )
        }),
{
    lemma_stream_run(size, start, outcomes);
}

/// Any number of steps keeps a copy and its world in step.
proof fn lemma_stream_run(size: u64, start: StreamWorld, outcomes: Seq<bool>)
    requires
        start.valid(),
        stream_run_possible(StreamCopy::begin(size), start, outcomes),
    ensures
        ({
            let (copy, world) = stream_run(StreamCopy::begin(size), start, outcomes);
            stream_in_step(copy, world, start) && copy.size == size
        }),
    decreases outcomes.len(),
{
    if outcomes.len() > 0 {
        lemma_stream_run(size, start, outcomes.drop_last());
        let (copy, world) = stream_run(StreamCopy::begin(size), start, outcomes.drop_last());
        lemma_stream_step(copy, world, start, outcomes.last());
    }
}

/// A bound on how many steps a copy from a stream still takes.
pub open spec fn stream_steps_left(copy: StreamCopy) -> int {
    match copy.step {
        StreamStep::Create(_) => 2 * copy.remaining + 4,
        StreamStep::Read(_) => 2 * copy.remaining + 1,
        StreamStep::Write(_) => 2 * copy.remaining + 2,
        StreamStep::Skip(_) => 1,
        StreamStep::Flush => 1,
        StreamStep::Done => 0,
        StreamStep::Broken => 0,
    }
}

/// A copy from a stream comes to an end: every step leaves fewer to take.
pub proof fn law_stream_copy_ends(copy: StreamCopy, worked: bool)
    requires
        copy.valid(),
        !(copy.step is Done),
        !(copy.step is Broken),
    ensures
        0 <= stream_steps_left(copy.next(worked)) < stream_steps_left(copy),
{
}

/// What a copy out of a file works on.
#[verifier::ext_equal]
pub struct FileWorld {
    /// Everything that the file to copy out of holds.
    pub source: Seq<u8>,
    /// The bytes that were read last.
    pub held: Seq<u8>,
    /// What the file to copy to holds.
    pub file: Seq<u8>,
}

impl FileWorld {
    /// Whether a step can have this outcome: only what is there can be read.
    pub open spec fn allows(self, step: FileStep, worked: bool) -> bool {
        match step {
            FileStep::ReadAt(position, n) => worked ==> position + n <= self.source.len(),
            FileStep::Probe(position) => worked ==> position < self.source.len(),
            _ => true,
        }
    }

    /// What is left of the world after a step with this outcome.
    pub open spec fn after(self, step: FileStep, worked: bool) -> FileWorld {
        if !worked {
            self
        } else {
            match step {
                FileStep::Create => FileWorld { file: Seq::empty(), ..self },
                FileStep::ReadAt(position, n) => FileWorld {
                    held: self.source.subrange(position as int, position + n),
                    ..self
                },
                FileStep::Write(_) => FileWorld { file: self.file + self.held, ..self },
                _ => self,
            }
        }
    }
}

/// How far a copy is after steps with these outcomes, and what the world is then.
pub open spec fn file_run(copy: FileCopy, world: FileWorld, outcomes: Seq<bool>) -> (
    FileCopy,
    FileWorld,
)
    decreases outcomes.len(),
{
    if outcomes.len() == 0 {
        (copy, world)
    } else {
        let (c, w) = file_run(copy, world, outcomes.drop_last());
        (c.next(outcomes.last()), w.after(c.step, outcomes.last()))
    }
}

/// Whether steps can have these outcomes one after the other.
pub open spec fn file_run_possible(copy: FileCopy, world: FileWorld, outcomes: Seq<bool>) -> bool
    decreases outcomes.len(),
{
    outcomes.len() > 0 ==> {
        let (c, w) = file_run(copy, world, outcomes.drop_last());
        &&& file_run_possible(copy, world, outcomes.drop_last())
        &&& w.allows(c.step, outcomes.last())
    }
}

/// What holds at any time of a copy of the `size` bytes behind `offset` of `source`, and of its
/// world.
pub open spec fn file_in_step(
    copy: FileCopy,
    world: FileWorld,
    source: Seq<u8>,
    offset: u64,
    size: u64,
) -> bool {
    let seen = source.subrange(offset as int, copy.position as int);
    &&& copy.valid()
    &&& world.source == source
    &&& offset <= copy.position
    &&& copy.position + copy.remaining == offset + size
    &&& copy.position > offset ==> copy.position <= source.len()
    &&& copy.step is Done && size > 0 ==> offset + size <= source.len()
    &&& !copy.write_failed ==> match copy.step {
        FileStep::Create => copy.position == offset,
        FileStep::ReadAt(_, _) => holds_first(world.file, source, offset, copy.position),
        FileStep::Write(n) => {
            &&& copy.position + n <= source.len()
            &&& holds_first(world.file, source, offset, copy.position)
            &&& world.held == source.subrange(copy.position as int, copy.position + n)
        },
        FileStep::Done => copy.remaining == 0 && holds_first(
            world.file,
            source,
            offset,
            copy.position,
        ),
        FileStep::Probe(_) => true,
        FileStep::Broken => true,
    }
}

/// Whether `file` holds the bytes of `source` from `offset` up to `end`.
pub open spec fn holds_first(file: Seq<u8>, source: Seq<u8>, offset: u64, end: u64) -> bool {
    if end <= offset {
        file.len() == 0
    } else {
        file == source.subrange(offset as int, end as int)
    }
}

/// A single step keeps a copy and its world in step.
pub proof fn lemma_file_step(
    copy: FileCopy,
    world: FileWorld,
    source: Seq<u8>,
    offset: u64,
    size: u64,
    worked: bool,
)
    requires
        source.len() <= u64::MAX,
        file_in_step(copy, world, source, offset, size),
        world.allows(copy.step, worked),
    ensures
        file_in_step(copy.next(worked), world.after(copy.step, worked), source, offset, size),
{
    let next = copy.next(worked);
    if worked {
        if let FileStep::Write(n) = copy.step {
            assert(source.subrange(offset as int, next.position as int) =~= source.subrange(
                offset as int,
                copy.position as int,
            ) + world.held);
            assert(world.file + world.held =~= source.subrange(
                offset as int,
                next.position as int,
            ));
        }
    }
}

/// Any number of steps keeps a copy and its world in step.
proof fn lemma_file_run(offset: u64, size: u64, start: FileWorld, outcomes: Seq<bool>)
    requires
        start.source.len() <= u64::MAX,
        file_run_possible(FileCopy::begin(offset, size), start, outcomes),
    ensures
        ({
            let (copy, world) = file_run(FileCopy::begin(offset, size), start, outcomes);
            file_in_step(copy, world, start.source, offset, size)
        }),
    decreases outcomes.len(),
{
    if outcomes.len() > 0 {
        lemma_file_run(offset, size, start, outcomes.drop_last());
        let (copy, world) = file_run(
            FileCopy::begin(offset, size),
            start,
            outcomes.drop_last(),
        );
        lemma_file_step(copy, world, start.source, offset, size, outcomes.last());
    }
}

/// The copy of an entry out of a file, once it is done and unless something could not be written,
/// has left in the new file exactly the `size` bytes behind `offset`. In any case those bytes are
/// there once it is done, even where the file was given up.
pub proof fn law_file_copy(offset: u64, size: u64, start: FileWorld, outcomes: Seq<bool>)
    requires
        start.source.len() <= u64::MAX,
        file_run_possible(FileCopy::begin(offset, size), start, outcomes),
    ensures
        ({
            let (copy, world) = file_run(FileCopy::begin(offset, size), start, outcomes);
            &&& copy.step is Done && size > 0 ==> offset + size <= start.source.len()
            &&& copy.step is Done && !copy.write_failed ==> {
                &&& world.file.len() == size
                &&& size > 0 ==> world.file == start.source.subrange(offset as int, offset + size)
            }
        }),
{
    lemma_file_run(offset, size, start, outcomes);
}

/// A bound on how many steps a copy out of a file still takes.
pub open spec fn file_steps_left(copy: FileCopy) -> int {
    match copy.step {
        FileStep::Create => 2 * copy.remaining + 3,
        FileStep::ReadAt(_, _) => 2 * copy.remaining + 2,
        FileStep::Write(_) => 2 * copy.remaining + 1,
        FileStep::Probe(_) => 1,
        FileStep::Done => 0,
        FileStep::Broken => 0,
    }
}

/// A copy out of a file comes to an end: every step leaves fewer to take.
pub proof fn law_file_copy_ends(copy: FileCopy, worked: bool)
    requires
        copy.valid(),
        !(copy.step is Done),
        !(copy.step is Broken),
    ensures
        0 <= file_steps_left(copy.next(worked)) < file_steps_left(copy),
{
}

/// How far a read at a position is, and what it has read.
pub struct ReadWorld {
    pub read: ReadAt,
    pub buf: Seq<u8>,
}

impl ReadWorld {
    /// The read of `want` bytes from `position` on, at its start.
    pub open spec fn begin(position: u64, want: usize) -> ReadWorld {
        ReadWorld { read: ReadAt { position, want, got: 0 }, buf: Seq::empty() }
    }

    /// Whether a single read of `source` can give `n` bytes: no more than are wanted and than are
    /// there, and none only at the end.
    pub open spec fn allows(self, source: Seq<u8>, n: nat) -> bool {
        &&& n <= self.read.want - self.read.got
        &&& n > 0 ==> self.read.position + n <= source.len()
        &&& n == 0 ==> self.read.got == self.read.want || self.read.position >= source.len()
    }

    /// The world after a single read of `source` that gave `n` bytes.
    pub open spec fn after(self, source: Seq<u8>, n: nat) -> ReadWorld {
        if n == 0 {
            self
        } else {
            ReadWorld {
                read: self.read.further(n),
                buf: self.buf + source.subrange(
                    self.read.position as int,
                    self.read.position + n,
                ),
            }
        }
    }
}

/// How far a read is after single reads that gave so many bytes each.
pub open spec fn read_run(
    source: Seq<u8>,
    position: u64,
    want: usize,
    given: Seq<nat>,
) -> ReadWorld
    decreases given.len(),
{
    if given.len() == 0 {
        ReadWorld::begin(position, want)
    } else {
        read_run(source, position, want, given.drop_last()).after(source, given.last())
    }
}

/// Whether single reads can give so many bytes one after the other.
pub open spec fn read_run_possible(
    source: Seq<u8>,
    position: u64,
    want: usize,
    given: Seq<nat>,
) -> bool
    decreases given.len(),
{
    given.len() > 0 ==> {
        &&& read_run_possible(source, position, want, given.drop_last())
        &&& read_run(source, position, want, given.drop_last()).allows(source, given.last())
    }
}

/// Single reads add up: what they have given together is what the file holds from the position on.
/// When as many bytes are there as are wanted, those are the bytes that were wanted; and a single
/// read that gives none before that means that the file does not hold them all.
pub proof fn law_single_reads_add_up(
    source: Seq<u8>,
    position: u64,
    want: usize,
    given: Seq<nat>,
)
    requires
        source.len() <= u64::MAX,
        read_run_possible(source, position, want, given),
    ensures
        ({
            let world = read_run(source, position, want, given);
            &&& world.read.want == want
            &&& world.read.got <= want
            &&& world.read.position == position + world.read.got
            &&& world.buf.len() == world.read.got
            &&& world.read.got > 0 ==> {
                &&& position + world.read.got <= source.len()
                &&& world.buf == source.subrange(position as int, position + world.read.got)
            }
            &&& world.read.got < want && world.allows(source, 0) ==> position + want
                > source.len()
        }),
    decreases given.len(),
{
    if given.len() > 0 {
        let n = given.last();
        law_single_reads_add_up(source, position, want, given.drop_last());
        let before = read_run(source, position, want, given.drop_last());
        let after = read_run(source, position, want, given);
        if n > 0 {
            assert(after.buf =~= source.subrange(position as int, position + after.read.got));
        }
    }
}

} // verus!
