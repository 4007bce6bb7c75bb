//! Copying the contents of an entry to its file.
//!
//! Reading and writing is the caller's. The state of a copy says what is to be done next; the
//! caller does that and hands back how it went.

use vstd::prelude::*;

use crate::error::{entry_truncated, ErrorView, FailureView, FastGmadError, IoFailure};
use crate::path::OsPath;

verus! {

/// How many bytes are copied at a time, at most: 1 MiB.
pub const COPY_CHUNK: u64 = 0x10_0000;

/// How many of `remaining` bytes are copied next.
pub open spec fn chunk_of(remaining: u64) -> u64 {
    if remaining <= COPY_CHUNK {
        remaining
    } else {
        COPY_CHUNK
    }
}

/// How many of `remaining` bytes are copied next.
fn chunk_len(remaining: u64) -> (n: u64)
    ensures
        n == chunk_of(remaining),
{
    if remaining <= COPY_CHUNK {
        remaining
    } else {
        COPY_CHUNK
    }
}

/// What is to be done next for an entry whose contents come from a stream.
#[derive(Clone, Copy, Debug, PartialEq, Eq, Structural)]
pub enum StreamStep {
    /// Create the file, with room for this many bytes before they have to be written.
    Create(u64),
    /// Read exactly this many bytes from the stream.
    Read(u64),
    /// Write the bytes that were read last, this many, to the file.
    Write(u64),
    /// Leave out this many bytes of the stream.
    Skip(u64),
    /// Write to the file what is still held back.
    Flush,
    /// Nothing: the stream is where the next entry starts.
    Done,
    /// Nothing: the stream broke off.
    Broken,
}

/// A copy from a stream.
#[derive(Clone, Copy, Debug, PartialEq, Eq, Structural)]
pub struct StreamCopy {
    /// How many bytes the contents are.
    pub size: u64,
    /// How many of them the stream has yet to give.
    pub remaining: u64,
    /// What is to be done next.
    pub step: StreamStep,
    /// Whether the file could not be written.
    pub write_failed: bool,
}

impl StreamCopy {
    /// The copy of `size` bytes at its start.
    pub open spec fn begin(size: u64) -> StreamCopy {
        StreamCopy {
            size,
            remaining: size,
            step: StreamStep::Create(chunk_of(size)),
            write_failed: false,
        }
    }

    /// The copy when it is to go on with what remains of the contents.
    pub open spec fn going_on(self) -> StreamCopy {
        StreamCopy {
            step: if self.remaining > 0 {
                StreamStep::Read(chunk_of(self.remaining))
            } else {
                StreamStep::Flush
            },
            ..self
        }
    }

    /// The copy when its file has been given up, and only the stream is to be kept in step.
    pub open spec fn giving_up(self) -> StreamCopy {
        StreamCopy { step: StreamStep::Skip(self.remaining), write_failed: true, ..self }
    }

    /// The copy after what was to be done has been tried, and worked or did not.
    pub open spec fn next(self, worked: bool) -> StreamCopy {
        match self.step {
            StreamStep::Create(_) => if worked {
                self.going_on()
            } else {
                self.giving_up()
            },
            StreamStep::Read(n) => if worked {
                StreamCopy {
                    remaining: (self.remaining - n) as u64,
                    step: StreamStep::Write(n),
                    ..self
                }
            } else {
                StreamCopy { step: StreamStep::Broken, ..self }
            },
            StreamStep::Write(_) => if worked {
                self.going_on()
            } else {
                self.giving_up()
            },
            StreamStep::Skip(_) => if worked {
                StreamCopy { remaining: 0, step: StreamStep::Done, ..self }
            } else {
                StreamCopy { step: StreamStep::Broken, ..self }
            },
            StreamStep::Flush => StreamCopy {
                step: StreamStep::Done,
                write_failed: self.write_failed || !worked,
                ..self
            },
            StreamStep::Done => self,
            StreamStep::Broken => self,
        }
    }

    /// No more is read or left out than remains.
    pub open spec fn valid(self) -> bool {
        &&& self.remaining <= self.size
        &&& match self.step {
            StreamStep::Create(n) => n == chunk_of(self.size) && self.remaining == self.size
                && !self.write_failed,
            StreamStep::Read(n) => n == chunk_of(self.remaining) && n > 0 && !self.write_failed,
            StreamStep::Write(n) => n + self.remaining <= self.size && !self.write_failed,
            StreamStep::Skip(n) => n == self.remaining && self.write_failed,
            StreamStep::Flush => self.remaining == 0 && !self.write_failed,
            StreamStep::Done => self.remaining == 0,
            StreamStep::Broken => true,
        }
    }

    /// The copy of `size` bytes at its start.
    pub fn new(size: u64) -> (copy: StreamCopy)
        ensures
            copy == StreamCopy::begin(size),
            copy.valid(),
    {
        StreamCopy {
            size,
            remaining: size,
            step: StreamStep::Create(chunk_len(size)),
            write_failed: false,
        }
    }

    /// Goes on with what remains of the contents.
    fn go_on(&mut self)
        ensures
            *final(self) == old(self).going_on(),
    {
        self.step = if self.remaining > 0 {
            StreamStep::Read(chunk_len(self.remaining))
        } else {
            StreamStep::Flush
        };
    }

    /// Gives the file up.
    fn give_up(&mut self)
        ensures
            *final(self) == old(self).giving_up(),
    {
        self.write_failed = true;
        self.step = StreamStep::Skip(self.remaining);
    }
}

/// Takes the copy of an entry from a stream to the file at `path` one step further: `outcome` is
/// what became of the step that was to be done. A file that cannot be written is counted and
/// given up; a stream that breaks off is an error.
pub fn write_entry_streaming(
    copy: &mut StreamCopy,
    path: &OsPath,
    outcome: Result<(), IoFailure>,
    failed_writes: &mut usize,
) -> (out: Result<(), FastGmadError>)
    requires
        old(copy).valid(),
        !old(copy).write_failed ==> *old(failed_writes) < usize::MAX,
    ensures
        *final(copy) == old(copy).next(outcome is Ok),
        final(copy).valid(),
        *final(failed_writes) == *old(failed_writes) + if final(copy).write_failed
            && !old(copy).write_failed {
            1int
        } else {
            0int
        },
        out is Err <==> {
            &&& outcome is Err
            &&& old(copy).step is Read || old(copy).step is Skip
        },
        out is Err <==> final(copy).step is Broken && !(old(copy).step is Broken),
        out matches Err(e) ==> e@ == ErrorView::entry(outcome->Err_0@, path@),
{
    match copy.step {
        StreamStep::Create(_) => match outcome {
            Ok(_) => copy.go_on(),
            Err(_) => {
                *failed_writes = *failed_writes + 1;
                copy.give_up();
            },
        },
        StreamStep::Read(n) => match outcome {
            Ok(_) => {
                copy.remaining = copy.remaining - n;
                copy.step = StreamStep::Write(n);
            },
            Err(failure) => {
                copy.step = StreamStep::Broken;
                return Err(entry_truncated(failure, path));
            },
        },
        StreamStep::Write(_) => match outcome {
            Ok(_) => copy.go_on(),
            Err(_) => {
                *failed_writes = *failed_writes + 1;
                copy.give_up();
            },
        },
        StreamStep::Skip(_) => match outcome {
            Ok(_) => {
                copy.remaining = 0;
                copy.step = StreamStep::Done;
            },
            Err(failure) => {
                copy.step = StreamStep::Broken;
                return Err(entry_truncated(failure, path));
            },
        },
        StreamStep::Flush => {
            if outcome.is_err() {
                *failed_writes = *failed_writes + 1;
                copy.write_failed = true;
            }
            copy.step = StreamStep::Done;
        },
        StreamStep::Done => {},
        StreamStep::Broken => {},
    }
    Ok(())
}

/// What is to be done next for an entry whose contents lie in a file.
#[derive(Clone, Copy, Debug, PartialEq, Eq, Structural)]
pub enum FileStep {
    /// Create the file.
    Create,
    /// Read exactly this many bytes, the second number, from this position on, the first.
    ReadAt(u64, u64),
    /// Write the bytes that were read last, this many, to the file.
    Write(u64),
    /// Read the byte at this position, the last of the contents, to see whether it is there.
    Probe(u64),
    /// Nothing: the file is written, or given up though all the contents are there.
    Done,
    /// Nothing: the contents could not be read, or are not all there.
    Broken,
}

/// A copy out of a file.
#[derive(Clone, Copy, Debug, PartialEq, Eq, Structural)]
pub struct FileCopy {
    /// Where the next bytes of the contents are to be read.
    pub position: u64,
    /// How many bytes of the contents have yet to be written.
    pub remaining: u64,
    /// What is to be done next.
    pub step: FileStep,
    /// Whether the file could not be written.
    pub write_failed: bool,
}

impl FileCopy {
    /// The copy of the `size` bytes behind `offset`, at its start.
    pub open spec fn begin(offset: u64, size: u64) -> FileCopy {
        FileCopy {
            position: offset,
            remaining: size,
            step: FileStep::Create,
            write_failed: false,
        }
    }

    /// The copy when it is to go on with what remains of the contents.
    pub open spec fn going_on(self) -> FileCopy {
        FileCopy {
            step: if self.remaining > 0 {
                FileStep::ReadAt(self.position, chunk_of(self.remaining))
            } else {
                FileStep::Done
            },
            ..self
        }
    }

    /// The copy when its file has been given up and the last `unread` bytes of the contents were
    /// not read: it has yet to be seen whether they are there. No file goes on past the last 64-bit
    /// position.
    pub open spec fn giving_up(self, unread: u64) -> FileCopy {
        FileCopy {
            step: if unread == 0 {
                FileStep::Done
            } else if self.position + self.remaining > u64::MAX {
                FileStep::Broken
            } else {
                FileStep::Probe((self.position + self.remaining - 1) as u64)
            },
            write_failed: true,
            ..self
        }
    }

    /// The copy after what was to be done has been tried, and worked or did not.
    pub open spec fn next(self, worked: bool) -> FileCopy {
        match self.step {
            FileStep::Create => if worked {
                self.going_on()
            } else {
                self.giving_up(self.remaining)
            },
            FileStep::ReadAt(_, n) => if worked {
                FileCopy { step: FileStep::Write(n), ..self }
            } else {
                FileCopy { step: FileStep::Broken, ..self }
            },
            FileStep::Write(n) => if worked {
                FileCopy {
                    position: (self.position + n) as u64,
                    remaining: (self.remaining - n) as u64,
                    ..self
                }.going_on()
            } else {
                self.giving_up((self.remaining - n) as u64)
            },
            FileStep::Probe(_) => if worked {
                FileCopy { step: FileStep::Done, ..self }
            } else {
                FileCopy { step: FileStep::Broken, ..self }
            },
            FileStep::Done => self,
            FileStep::Broken => self,
        }
    }

    /// No more is read or written than remains, and what was read lies within a file.
    pub open spec fn valid(self) -> bool {
        match self.step {
            FileStep::Create => !self.write_failed,
            FileStep::ReadAt(position, n) => position == self.position && n == chunk_of(
                self.remaining,
            ) && n > 0 && !self.write_failed,
            FileStep::Write(n) => n == chunk_of(self.remaining) && n > 0 && self.position + n
                <= u64::MAX && !self.write_failed,
            FileStep::Probe(position) => position + 1 == self.position + self.remaining
                && position < u64::MAX && self.remaining > 0 && self.write_failed,
            FileStep::Done => true,
            FileStep::Broken => true,
        }
    }

    /// Whether the step that is to be done can work: no file goes on past the last 64-bit position.
    pub open spec fn can_work(self) -> bool {
        self.step matches FileStep::ReadAt(position, n) ==> position + n <= u64::MAX
    }

    /// The copy of the `size` bytes behind `offset`, at its start.
    pub fn new(offset: u64, size: u64) -> (copy: FileCopy)
        ensures
            copy == FileCopy::begin(offset, size),
            copy.valid(),
    {
        FileCopy { position: offset, remaining: size, step: FileStep::Create, write_failed: false }
    }

    /// Goes on with what remains of the contents.
    fn go_on(&mut self)
        ensures
            *final(self) == old(self).going_on(),
    {
        self.step = if self.remaining > 0 {
            FileStep::ReadAt(self.position, chunk_len(self.remaining))
        } else {
            FileStep::Done
        };
    }

    /// Gives the file up, of whose contents the last `unread` bytes were not read.
    fn give_up(&mut self, unread: u64)
        requires
            unread <= old(self).remaining,
        ensures
            *final(self) == old(self).giving_up(unread),
    {
        self.write_failed = true;
        self.step = if unread == 0 {
            FileStep::Done
        } else {
            match self.position.checked_add(self.remaining) {
                Some(end) => FileStep::Probe(end - 1),
                None => FileStep::Broken,
            }
        };
    }
}

/// What a step comes to that leaves a copy broken: the failure of a read, or that the contents are
/// not all there.
pub open spec fn broken_by(before: FileCopy, outcome: Result<(), IoFailure>) -> FailureView {
    if before.step is ReadAt || before.step is Probe {
        outcome->Err_0@
    } else {
        FailureView::end_of_file()
    }
}

/// Takes the copy of an entry out of a file to the file at `path` one step further: `outcome` is
/// what became of the step that was to be done. A file that cannot be written is given up;
/// contents that cannot be read, or are not all there, are an error even then.
pub fn write_entry_at(copy: &mut FileCopy, path: &OsPath, outcome: Result<(), IoFailure>) -> (out:
    Result<(), FastGmadError>)
    requires
        old(copy).valid(),
        outcome is Ok ==> old(copy).can_work(),
    ensures
        *final(copy) == old(copy).next(outcome is Ok),
        final(copy).valid(),
        out is Err <==> final(copy).step is Broken && !(old(copy).step is Broken),
        out matches Err(e) ==> e@ == ErrorView::entry(broken_by(*old(copy), outcome), path@),
{
    match copy.step {
        FileStep::Create => match outcome {
            Ok(_) => copy.go_on(),
            Err(_) => copy.give_up(copy.remaining),
        },
        FileStep::ReadAt(_, n) => match outcome {
            Ok(_) => {
                copy.step = FileStep::Write(n);
            },
            Err(failure) => {
                copy.step = FileStep::Broken;
                return Err(entry_truncated(failure, path));
            },
        },
        FileStep::Write(n) => match outcome {
            Ok(_) => {
                copy.position = copy.position + n;
                copy.remaining = copy.remaining - n;
                copy.go_on();
            },
            Err(_) => copy.give_up(copy.remaining - n),
        },
        FileStep::Probe(_) => match outcome {
            Ok(_) => {
                copy.step = FileStep::Done;
            },
            Err(failure) => {
                copy.step = FileStep::Broken;
                return Err(entry_truncated(failure, path));
            },
        },
        FileStep::Done => {},
        FileStep::Broken => return Ok(()),
    }
    if matches!(copy.step, FileStep::Broken) {
        return Err(entry_truncated(IoFailure::end_of_file(), path));
    }
    Ok(())
}

/// What a single read at a position came to.
#[derive(Debug)]
pub enum ReadReply {
    /// It gave this many bytes.
    Got(usize),
    /// It was interrupted before it gave any.
    Interrupted,
    /// It failed.
    Failed(IoFailure),
}

/// A read of a given number of bytes at a position, made of single reads.
#[derive(Clone, Copy, Debug, PartialEq, Eq, Structural)]
pub struct ReadAt {
    /// Where the next single read is to start.
    pub position: u64,
    /// How many bytes are wanted.
    pub want: usize,
    /// How many of them are there.
    pub got: usize,
}

impl ReadAt {
    /// No more bytes are there than are wanted.
    pub open spec fn valid(self) -> bool {
        self.got <= self.want
    }

    /// The read after a single read that gave `n` bytes.
    pub open spec fn further(self, n: nat) -> ReadAt {
        ReadAt {
            position: (self.position + n) as u64,
            got: (self.got + n) as usize,
            ..self
        }
    }

    /// The read of `want` bytes from `position` on, at its start.
    pub open spec fn begin(position: u64, want: usize) -> ReadAt {
        ReadAt { position, want, got: 0 }
    }

    /// The read after a single read that came to `reply`.
    pub open spec fn after(self, reply: ReadReply) -> ReadAt {
        match reply {
            ReadReply::Got(n) => self.further(n as nat),
            _ => self,
        }
    }

    /// The failure that the read comes to with a single read that came to `reply`, if any.
    pub open spec fn failure(self, reply: ReadReply) -> Option<FailureView> {
        match reply {
            ReadReply::Got(n) => if n == 0 {
                Some(FailureView::end_of_file())
            } else {
                None
            },
            ReadReply::Interrupted => None,
            ReadReply::Failed(failure) => Some(failure@),
        }
    }

    /// Whether all the bytes are there.
    pub open spec fn is_whole(self) -> bool {
        self.got == self.want
    }

    /// The read of `want` bytes from `position` on, at its start.
    pub fn new(position: u64, want: usize) -> (read: ReadAt)
        ensures
            read == (ReadAt { position, want, got: 0 }),
            read == ReadAt::begin(position, want),
            read.valid(),
    {
        ReadAt { position, want, got: 0 }
    }

    /// Whether all the bytes are there.
    pub fn is_complete(&self) -> (yes: bool)
        ensures
            yes == (self.got == self.want),
            yes == self.is_whole(),
    {
        self.got == self.want
    }
}

/// Takes `read` one single read further. An interrupted one is to be made again; one that gives
/// nothing is past the end of the file. No file goes on past the last 64-bit position.
pub fn read_exact_at(read: &mut ReadAt, reply: ReadReply) -> (out: Result<(), IoFailure>)
    requires
        old(read).valid(),
        reply matches ReadReply::Got(n) ==> {
            &&& n <= old(read).want - old(read).got
            &&& old(read).position + n <= u64::MAX
        },
    ensures
        final(read).valid(),
        match reply {
            ReadReply::Got(n) => if n == 0 {
                &&& out matches Err(e)
                &&& e@ == FailureView::end_of_file()
                &&& *final(read) == *old(read)
            } else {
                &&& out is Ok
                &&& *final(read) == old(read).further(n as nat)
            },
            ReadReply::Interrupted => out is Ok && *final(read) == *old(read),
            ReadReply::Failed(failure) => {
                &&& out matches Err(e)
                &&& e@ == failure@
                &&& *final(read) == *old(read)
            },
        },
        *final(read) == old(read).after(reply),
        match old(read).failure(reply) {
            Some(failure) => out matches Err(e) && e@ == failure,
            None => out is Ok,
        },
{
    match reply {
        ReadReply::Got(n) => {
            if n == 0 {
                return Err(IoFailure::end_of_file());
            }
            read.got = read.got + n;
            read.position = read.position + n as u64;
            Ok(())
        },
        ReadReply::Interrupted => Ok(()),
        ReadReply::Failed(failure) => Err(failure),
    }
}

} // verus!
