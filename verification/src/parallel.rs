//! The reader's part in writing the entries of a stream while it is still being read.

use vstd::prelude::*;

use crate::copy::{write_entry_streaming, StreamCopy, StreamStep};
use crate::copy_laws::StreamWorld;
use crate::error::{ErrorView, FailureView, FastGmadError, IoFailure};
use crate::index::GmaEntry;
use crate::path::PathView;
use crate::queue::{Admission, QueueEvent, QueueWorld, Queued, WriteQueue};

verus! {

/// What the reader is to do next.
#[derive(Clone, Copy, Debug, PartialEq, Eq, Structural)]
pub enum ReaderStep {
    /// Ask whether there is memory for the entry at hand.
    Ask,
    /// Wait until there is more memory, then ask again.
    Wait,
    /// Copy the entry at hand straight to its file: do what the copy says.
    Copy(StreamCopy),
    /// Read up to this many bytes, the contents of the entry at hand, into memory.
    Read(u64),
    /// Nothing: the stream broke off.
    Broken,
}

/// What became of what the reader was to do.
#[derive(Debug)]
pub enum ReaderEvent {
    /// The reader asks.
    Ask,
    /// The copy made a step, with this outcome.
    Copied(Result<(), IoFailure>),
    /// These bytes were there to read, or the read failed.
    Read(Result<Vec<u8>, IoFailure>),
}

/// How far the reader is.
#[derive(Clone, Copy, Debug, PartialEq, Eq, Structural)]
pub struct ParallelRead {
    /// Which entry is at hand.
    pub index: usize,
    /// What is to be done next.
    pub step: ReaderStep,
    /// How many files that the reader was to write itself could not be written.
    pub inline_failed_writes: usize,
}

impl ParallelRead {
    /// Nothing is read yet.
    pub open spec fn begin() -> ParallelRead {
        ParallelRead { index: 0, step: ReaderStep::Ask, inline_failed_writes: 0 }
    }

    /// The reader with the next entry at hand.
    pub open spec fn moving_on(self) -> ParallelRead {
        ParallelRead { index: (self.index + 1) as usize, step: ReaderStep::Ask, ..self }
    }

    /// The reader after it was told `todo` about the entry at hand, which is of `size` bytes.
    pub open spec fn told(self, size: u64, todo: Admission) -> ParallelRead {
        let step = match todo {
            Admission::Stream => ReaderStep::Copy(StreamCopy::begin(size)),
            Admission::Wait => ReaderStep::Wait,
            Admission::Read => ReaderStep::Read(size),
        };
        ParallelRead { step, ..self }
    }

    /// The reader after a step of its `copy` that worked or did not.
    pub open spec fn copying(self, copy: StreamCopy, worked: bool) -> ParallelRead {
        let next = copy.next(worked);
        let counted = ParallelRead {
            inline_failed_writes: if next.write_failed && !copy.write_failed {
                (self.inline_failed_writes + 1) as usize
            } else {
                self.inline_failed_writes
            },
            ..self
        };
        if next.step is Done {
            counted.moving_on()
        } else if next.step is Broken {
            ParallelRead { step: ReaderStep::Broken, ..counted }
        } else {
            ParallelRead { step: ReaderStep::Copy(next), ..counted }
        }
    }

    /// The reader after a read that gave all the bytes or did not.
    pub open spec fn reading(self, worked: bool) -> ParallelRead {
        if worked {
            self.moving_on()
        } else {
            ParallelRead { step: ReaderStep::Broken, ..self }
        }
    }

    /// What is to be done is about the entry at hand, and each entry has failed once at most.
    pub open spec fn valid(self, sizes: Seq<u64>) -> bool {
        &&& self.index <= sizes.len() <= usize::MAX
        &&& match self.step {
            ReaderStep::Copy(copy) => {
                &&& self.index < sizes.len()
                &&& copy.valid()
                &&& copy.size == sizes[self.index as int]
                &&& !(copy.step is Done)
                &&& !(copy.step is Broken)
                &&& self.inline_failed_writes <= self.index + if copy.write_failed {
                    1int
                } else {
                    0int
                }
            },
            ReaderStep::Read(n) => {
                &&& self.index < sizes.len()
                &&& n == sizes[self.index as int]
                &&& self.inline_failed_writes <= self.index
            },
            ReaderStep::Broken => self.inline_failed_writes <= self.index + 1,
            _ => self.inline_failed_writes <= self.index,
        }
    }

    /// Whether `event` can come of what was to be done.
    pub open spec fn expects(self, event: ReaderEvent) -> bool {
        match event {
            ReaderEvent::Ask => self.step is Ask || self.step is Wait,
            ReaderEvent::Copied(_) => self.step is Copy,
            ReaderEvent::Read(_) => self.step is Read,
        }
    }

    /// The reader at its start.
    pub fn new() -> (reader: ParallelRead)
        ensures
            reader == ParallelRead::begin(),
    {
        ParallelRead { index: 0, step: ReaderStep::Ask, inline_failed_writes: 0 }
    }

    /// Whether each of `count` entries has been read.
    pub open spec fn has_read(self, count: nat) -> bool {
        self.index >= count
    }

    /// Whether every entry has been read.
    pub fn is_over(&self, entries: &[GmaEntry]) -> (yes: bool)
        ensures
            yes == (self.index >= entries@.len()),
            yes == self.has_read(entries@.len()),
    {
        self.index >= entries.len()
    }
}

/// Takes the reader one step further: `event` is what became of what was to be done for the entry
/// at hand. An entry larger than the memory there is is copied straight to its file; any other is
/// read when there is memory for it, and queued. A file that cannot be written is counted and
/// given up; a stream that breaks off is an error.
pub fn write_entries_parallel(
    reader: &mut ParallelRead,
    queue: &mut WriteQueue,
    entries: &[GmaEntry],
    event: ReaderEvent,
) -> (out: Result<(), FastGmadError>)
    requires
        old(reader).valid(crate::sequential::sizes(entries@)),
        old(reader).index < entries@.len(),
        old(reader).expects(event),
        event is Ask ==> old(queue)@.admissible(
            entries@[old(reader).index as int].size as nat,
        ),
    ensures
        final(reader).valid(crate::sequential::sizes(entries@)),
        out is Err <==> final(reader).step is Broken,
        event matches ReaderEvent::Read(read) ==> (out is Ok <==> crate::queue::is_whole(
            read,
            entries@[old(reader).index as int].size as nat,
        )),
        ({
            let entry = entries@[old(reader).index as int]@;
            match event {
                ReaderEvent::Ask => {
                    &&& out is Ok
                    &&& *final(reader) == old(reader).told(
                        entry.size as u64,
                        old(queue)@.admission(entry.size),
                    )
                    &&& final(queue)@ == old(queue)@.admitting(entry.size)
                },
                ReaderEvent::Copied(outcome) => {
                    let copy = old(reader).step->Copy_0;
                    &&& *final(reader) == old(reader).copying(copy, outcome is Ok)
                    &&& final(queue)@ == old(queue)@
                    &&& out is Err <==> outcome is Err && (copy.step is Read || copy.step is Skip)
                    &&& out matches Err(e) ==> e@ == ErrorView::entry(
                        outcome->Err_0@,
                        entry.path,
                    )
                },
                ReaderEvent::Read(read) => {
                    let complete = read matches Ok(buf) && buf@.len() == entry.size;
                    &&& *final(reader) == old(reader).reading(complete)
                    &&& out is Ok <==> complete
                    &&& out matches Err(e) ==> e@ == ErrorView::entry(
                        match read {
                            Ok(_) => FailureView::end_of_file(),
                            Err(failure) => failure@,
                        },
                        entry.path,
                    )
                    &&& final(queue)@ == if complete {
                        old(queue)@.receiving(
                            (Queued { path: entry.path, contents: read->Ok_0@ }),
                        )
                    } else {
                        old(queue)@
                    }
                },
            }
        }),
{
    let entry = &entries[reader.index];
    match event {
        ReaderEvent::Ask => {
            reader.step = match queue.reserve(entry.size) {
                Admission::Stream => ReaderStep::Copy(StreamCopy::new(entry.size)),
                Admission::Wait => ReaderStep::Wait,
                Admission::Read => ReaderStep::Read(entry.size),
            };
            Ok(())
        },
        ReaderEvent::Copied(outcome) => {
            let mut copy = match reader.step {
                ReaderStep::Copy(copy) => copy,
                _ => StreamCopy::new(entry.size),
            };
            let out = write_entry_streaming(
                &mut copy,
                &entry.path,
                outcome,
                &mut reader.inline_failed_writes,
            );
            match copy.step {
                StreamStep::Done => {
                    reader.index = reader.index + 1;
                    reader.step = ReaderStep::Ask;
                },
                StreamStep::Broken => {
                    reader.step = ReaderStep::Broken;
                },
                _ => {
                    reader.step = ReaderStep::Copy(copy);
                },
            }
            out
        },
        ReaderEvent::Read(read) => {
            let out = queue.receive(&entry.path, entry.size, read);
            if out.is_ok() {
                reader.index = reader.index + 1;
                reader.step = ReaderStep::Ask;
            } else {
                reader.step = ReaderStep::Broken;
            }
            out
        },
    }
}

/// What became of an entry that was read.
pub enum Fate {
    /// It was queued.
    Queued,
    /// It was copied straight to its file, which holds this.
    Copied(Seq<u8>),
    /// It was to be copied straight to its file, which could not be written.
    GivenUp,
}

/// Something that happens while entries are read and written.
pub enum ParallelEvent {
    /// The reader asks about the entry at hand.
    Ask,
    /// A step of the reader's own copy works or does not.
    Copied(bool),
    /// A read of the entry at hand gives all the bytes or does not.
    Read(bool),
    /// A writer asks what to do.
    Take,
    /// The writer that took this item, by its number among those not finished, has written it or
    /// could not.
    Finish(int, bool),
}

/// What is to be read and written: where each entry goes, how many bytes its contents are, how many
/// bytes may be held in memory, and the stream.
pub struct ParallelJob {
    pub paths: Seq<PathView>,
    pub sizes: Seq<u64>,
    pub limit: nat,
    pub start: StreamWorld,
}

impl ParallelJob {
    /// There is a path for every size, and the stream is within its bounds.
    pub open spec fn valid(self) -> bool {
        &&& self.paths.len() == self.sizes.len() <= usize::MAX
        &&& self.start.valid()
    }

    /// The entry at `i` as it is queued.
    pub open spec fn item(self, i: int) -> Queued {
        Queued {
            path: self.paths[i],
            contents: crate::sequential::contents_at(self.sizes, self.start, i),
        }
    }

    /// Those of the first `n` entries that fit into memory, in their order.
    pub open spec fn items(self, n: int) -> Seq<Queued>
        decreases n,
    {
        if n <= 0 {
            Seq::empty()
        } else if self.sizes[n - 1] <= self.limit {
            self.items(n - 1).push(self.item(n - 1))
        } else {
            self.items(n - 1)
        }
    }
}

/// How far reader and writers are.
pub struct ParallelWorld {
    pub reader: ParallelRead,
    /// The queue, and what the writers are about.
    pub shared: QueueWorld,
    /// The stream, and the file that the reader is copying to.
    pub now: StreamWorld,
    /// What became of the entries that were read.
    pub fates: Seq<Fate>,
}

impl ParallelWorld {
    /// Nothing has happened yet.
    pub open spec fn begin(job: ParallelJob) -> ParallelWorld {
        ParallelWorld {
            reader: ParallelRead::begin(),
            shared: QueueWorld::begin(job.limit),
            now: job.start,
            fates: Seq::empty(),
        }
    }

    /// Whether the event can happen.
    pub open spec fn allows(self, job: ParallelJob, event: ParallelEvent) -> bool {
        match event {
            ParallelEvent::Ask => {
                &&& self.reader.index < job.sizes.len()
                &&& self.reader.step is Ask || self.reader.step is Wait
            },
            ParallelEvent::Copied(worked) => {
                &&& self.reader.step matches ReaderStep::Copy(copy)
                &&& self.now.allows(copy.step, worked)
            },
            ParallelEvent::Read(worked) => {
                &&& self.reader.step matches ReaderStep::Read(n)
                &&& worked ==> self.now.pos + n <= self.now.stream.len()
            },
            ParallelEvent::Take => true,
            ParallelEvent::Finish(i, written) => self.shared.allows(QueueEvent::Finish(i, written)),
        }
    }

    /// The world after the event.
    pub open spec fn after(self, job: ParallelJob, event: ParallelEvent) -> ParallelWorld {
        let index = self.reader.index as int;
        match event {
            ParallelEvent::Ask => ParallelWorld {
                reader: self.reader.told(
                    job.sizes[index],
                    self.shared.state.admission(job.sizes[index] as nat),
                ),
                shared: self.shared.after(QueueEvent::Ask(job.sizes[index] as nat)),
                ..self
            },
            ParallelEvent::Copied(worked) => {
                let copy = self.reader.step->Copy_0;
                let now = self.now.after(copy.step, worked);
                let fates = if !(copy.next(worked).step is Done) {
                    self.fates
                } else if copy.next(worked).write_failed {
                    self.fates.push(Fate::GivenUp)
                } else {
                    self.fates.push(Fate::Copied(now.file))
                };
                ParallelWorld { reader: self.reader.copying(copy, worked), now, fates, ..self }
            },
            ParallelEvent::Read(worked) => if worked {
                let n = self.reader.step->Read_0;
                let contents = self.now.stream.subrange(self.now.pos, self.now.pos + n);
                ParallelWorld {
                    reader: self.reader.reading(true),
                    shared: self.shared.after(
                        QueueEvent::Receive(Queued { path: job.paths[index], contents }),
                    ),
                    now: StreamWorld { pos: self.now.pos + n, ..self.now },
                    fates: self.fates.push(Fate::Queued),
                }
            } else {
                ParallelWorld { reader: self.reader.reading(false), ..self }
            },
            ParallelEvent::Take => ParallelWorld {
                shared: self.shared.after(QueueEvent::Take),
                ..self
            },
            ParallelEvent::Finish(i, written) => ParallelWorld {
                shared: self.shared.after(QueueEvent::Finish(i, written)),
                ..self
            },
        }
    }
}

/// The world after these events.
pub open spec fn parallel_run(job: ParallelJob, events: Seq<ParallelEvent>) -> ParallelWorld
    decreases events.len(),
{
    if events.len() == 0 {
        ParallelWorld::begin(job)
    } else {
        parallel_run(job, events.drop_last()).after(job, events.last())
    }
}

/// Whether these events can happen one after the other.
pub open spec fn parallel_run_possible(job: ParallelJob, events: Seq<ParallelEvent>) -> bool
    decreases events.len(),
{
    events.len() > 0 ==> {
        &&& parallel_run_possible(job, events.drop_last())
        &&& parallel_run(job, events.drop_last()).allows(job, events.last())
    }
}

/// How many of `fates` are that an entry was given up.
pub open spec fn given_up(fates: Seq<Fate>) -> nat
    decreases fates.len(),
{
    if fates.len() == 0 {
        0
    } else {
        given_up(fates.drop_last()) + if fates.last() is GivenUp {
            1nat
        } else {
            0nat
        }
    }
}

/// What holds of the fate of the entry at `i`.
pub open spec fn fate_is_right(job: ParallelJob, i: int, fate: Fate) -> bool {
    &&& fate is Queued <==> job.sizes[i] <= job.limit
    &&& fate matches Fate::Copied(file) ==> file == job.item(i).contents
}

/// What holds of reader and writers at any time.
pub open spec fn parallel_in_step(job: ParallelJob, world: ParallelWorld) -> bool {
    let index = world.reader.index as int;
    let entry_start = StreamWorld {
        pos: job.start.pos + crate::sequential::sum_first(job.sizes, index),
        ..job.start
    };
    &&& world.reader.valid(job.sizes)
    &&& crate::queue::queue_in_step(world.shared, job.limit)
    &&& !world.shared.state.producer_done
    &&& world.shared.received == job.items(index)
    &&& crate::queue::bytes_in(world.shared.received) <= crate::sequential::sum_first(
        job.sizes,
        index,
    )
    &&& world.fates.len() == index
    &&& forall|i: int| 0 <= i < index ==> fate_is_right(job, i, #[trigger] world.fates[i])
    &&& world.now.valid()
    &&& world.now.stream == job.start.stream
    &&& entry_start.valid()
    &&& match world.reader.step {
        ReaderStep::Copy(copy) => {
            &&& crate::copy_laws::stream_in_step(copy, world.now, entry_start)
            &&& world.shared.reading is None
            &&& job.sizes[index] > job.limit
            &&& world.reader.inline_failed_writes == given_up(world.fates) + if copy.write_failed {
                1int
            } else {
                0int
            }
        },
        ReaderStep::Read(n) => {
            &&& world.now.pos == entry_start.pos
            &&& world.shared.reading == Some(n as nat)
            &&& n <= job.limit
            &&& world.reader.inline_failed_writes == given_up(world.fates)
        },
        ReaderStep::Broken => {
            &&& index < job.sizes.len()
            &&& world.reader.inline_failed_writes <= given_up(world.fates) + 1
        },
        _ => {
            &&& world.now.pos == entry_start.pos
            &&& world.shared.reading is None
            &&& world.reader.inline_failed_writes == given_up(world.fates)
        },
    }
}

/// An event keeps reader and writers in step.
proof fn lemma_parallel_step(job: ParallelJob, world: ParallelWorld, event: ParallelEvent)
    requires
        job.valid(),
        parallel_in_step(job, world),
        world.allows(job, event),
    ensures
        parallel_in_step(job, world.after(job, event)),
{
    let index = world.reader.index as int;
    let entry_start = StreamWorld {
        pos: job.start.pos + crate::sequential::sum_first(job.sizes, index),
        ..job.start
    };
    let next = world.after(job, event);
    match event {
        ParallelEvent::Ask => {
            crate::queue::lemma_queue_step(
                world.shared,
                job.limit,
                QueueEvent::Ask(job.sizes[index] as nat),
            );
        },
        ParallelEvent::Copied(worked) => {
            let copy = world.reader.step->Copy_0;
            crate::copy_laws::lemma_stream_step(copy, world.now, entry_start, worked);
            if copy.next(worked).step is Done {
                assert(next.fates.drop_last() =~= world.fates);
                assert(next.now.pos == job.start.pos + crate::sequential::sum_first(
                    job.sizes,
                    index + 1,
                ));
            }
        },
        ParallelEvent::Read(worked) => {
            if worked {
                let n = world.reader.step->Read_0;
                let contents = world.now.stream.subrange(world.now.pos, world.now.pos + n);
                let item = Queued { path: job.paths[index], contents };
                assert(item == job.item(index));
                crate::queue::lemma_queue_step(
                    world.shared,
                    job.limit,
                    QueueEvent::Receive(item),
                );
                assert(next.fates.drop_last() =~= world.fates);
                assert(next.shared.received.drop_last() =~= world.shared.received);
            }
        },
        ParallelEvent::Take => {
            crate::queue::lemma_queue_step(world.shared, job.limit, QueueEvent::Take);
        },
        ParallelEvent::Finish(i, written) => {
            crate::queue::lemma_queue_step(
                world.shared,
                job.limit,
                QueueEvent::Finish(i, written),
            );
        },
    }
}

/// Any number of events keeps reader and writers in step.
pub proof fn lemma_parallel_run(job: ParallelJob, events: Seq<ParallelEvent>)
    requires
        job.valid(),
        parallel_run_possible(job, events),
    ensures
        parallel_in_step(job, parallel_run(job, events)),
    decreases events.len(),
{
    if events.len() == 0 {
        crate::queue::lemma_queue_begin(job.limit);
    } else {
        lemma_parallel_run(job, events.drop_last());
        lemma_parallel_step(job, parallel_run(job, events.drop_last()), events.last());
    }
}

/// Whatever happens in whatever order: what the reader queues is, entry by entry and in their
/// order, the contents of those that fit into memory, each with the path of its entry; an entry
/// that does not fit is copied to its file just as it is or is given up; and no more than the limit
/// is held in memory.
pub proof fn law_parallel_write(job: ParallelJob, events: Seq<ParallelEvent>)
    requires
        job.valid(),
        parallel_run_possible(job, events),
    ensures
        ({
            let world = parallel_run(job, events);
            &&& world.reader.index <= job.sizes.len()
            &&& world.shared.received == job.items(world.reader.index as int)
            &&& world.fates.len() == world.reader.index
            &&& job.start.pos + crate::sequential::sum_first(job.sizes, world.reader.index as int)
                <= job.start.stream.len()
            &&& forall|i: int|
                0 <= i < world.fates.len() ==> fate_is_right(job, i, #[trigger] world.fates[i])
            &&& world.shared.state.mem_used <= job.limit
            &&& !(world.reader.step is Broken) && !(world.reader.step is Copy)
                ==> world.reader.inline_failed_writes == given_up(world.fates)
        }),
{
    lemma_parallel_run(job, events);
}

/// When every entry was read and the writers have nothing left to write, every entry that fits into
/// memory was written just as it is or is counted as not written; and if none is counted, all the
/// entries are written, those that do not fit among them.
pub proof fn law_parallel_write_complete(job: ParallelJob, events: Seq<ParallelEvent>)
    requires
        job.valid(),
        parallel_run_possible(job, events),
        parallel_run(job, events).reader.index == job.sizes.len(),
        parallel_run(job, events).reader.step is Ask,
        parallel_run(job, events).shared.state.queue.len() == 0,
        parallel_run(job, events).shared.writing.len() == 0,
    ensures
        ({
            let world = parallel_run(job, events);
            let all = job.items(job.sizes.len() as int);
            &&& all.to_multiset() == world.shared.written.to_multiset().add(
                world.shared.unwritten.to_multiset(),
            )
            &&& world.shared.state.failed_writes == world.shared.unwritten.len()
            &&& world.reader.inline_failed_writes + world.shared.state.failed_writes == 0 ==> {
                &&& all.to_multiset() == world.shared.written.to_multiset()
                &&& forall|i: int|
                    0 <= i < job.sizes.len() && job.sizes[i] > job.limit
                        ==> #[trigger] world.fates[i] == Fate::Copied(job.item(i).contents)
            }
        }),
{
    broadcast use vstd::seq_lib::group_to_multiset_ensures;

    lemma_parallel_run(job, events);
    let world = parallel_run(job, events);
    let all = job.items(job.sizes.len() as int);
    assert(world.shared.taken =~= all);
    assert(world.shared.writing =~= Seq::empty());
    assert(all.to_multiset() =~= world.shared.written.to_multiset().add(
        world.shared.unwritten.to_multiset(),
    ));
    if world.reader.inline_failed_writes + world.shared.state.failed_writes == 0 {
        assert(world.shared.unwritten =~= Seq::empty());
        assert(all.to_multiset() =~= world.shared.written.to_multiset());
        lemma_none_given_up(world.fates);
        assert forall|i: int| 0 <= i < job.sizes.len() && job.sizes[i] > job.limit implies (
        #[trigger] world.fates[i]) == Fate::Copied(job.item(i).contents) by {
            assert(fate_is_right(job, i, world.fates[i]));
        }
    }
}

/// Where none is counted, none was given up.
proof fn lemma_none_given_up(fates: Seq<Fate>)
    requires
        given_up(fates) == 0,
    ensures
        forall|i: int| 0 <= i < fates.len() ==> !((#[trigger] fates[i]) is GivenUp),
    decreases fates.len(),
{
    if fates.len() > 0 {
        lemma_none_given_up(fates.drop_last());
        assert forall|i: int| 0 <= i < fates.len() implies !((#[trigger] fates[i]) is GivenUp) by {
            if i < fates.len() - 1 {
                assert(!(fates.drop_last()[i] is GivenUp));
            }
        }
    }
}

/// The entries that were queued and those that were given up are no more than were read.
proof fn lemma_fates_are_counted(job: ParallelJob, fates: Seq<Fate>)
    requires
        forall|i: int| 0 <= i < fates.len() ==> fate_is_right(job, i, #[trigger] fates[i]),
    ensures
        job.items(fates.len() as int).len() + given_up(fates) <= fates.len(),
    decreases fates.len(),
{
    if fates.len() > 0 {
        let front = fates.drop_last();
        assert forall|i: int| 0 <= i < front.len() implies fate_is_right(
            job,
            i,
            #[trigger] front[i],
        ) by {
            assert(front[i] == fates[i]);
        }
        lemma_fates_are_counted(job, front);
        assert(fate_is_right(job, fates.len() - 1, fates[fates.len() - 1]));
    }
}

/// The files that could not be written, by the reader or by the writers, are no more than there are
/// entries, and fewer while a writer still writes one: so there is room to count that one if it
/// fails, and in the end the two counts can be added up.
pub proof fn law_failed_writes_add_up(job: ParallelJob, events: Seq<ParallelEvent>)
    requires
        job.valid(),
        parallel_run_possible(job, events),
    ensures
        ({
            let world = parallel_run(job, events);
            let failed = world.reader.inline_failed_writes + world.shared.state.failed_writes;
            &&& failed <= job.sizes.len() <= usize::MAX
            &&& world.shared.writing.len() > 0 ==> failed < job.sizes.len()
        }),
{
    broadcast use vstd::seq_lib::group_to_multiset_ensures;

    lemma_parallel_run(job, events);
    let world = parallel_run(job, events);
    lemma_fates_are_counted(job, world.fates);
    let shared = world.shared;
    assert(shared.taken.to_multiset().len() == shared.writing.to_multiset().len()
        + shared.written.to_multiset().len() + shared.unwritten.to_multiset().len());
    assert(shared.received.len() == shared.taken.len() + shared.state.queue.len());
}

/// Where the contents of all the entries are together a machine number of bytes, so is the memory
/// that is taken when the reader asks about an entry.
pub proof fn law_reader_may_ask(job: ParallelJob, events: Seq<ParallelEvent>)
    requires
        job.valid(),
        crate::sequential::sum_first(job.sizes, job.sizes.len() as int) <= usize::MAX,
        parallel_run_possible(job, events),
        parallel_run(job, events).allows(job, ParallelEvent::Ask),
    ensures
        ({
            let world = parallel_run(job, events);
            world.shared.state.admissible(job.sizes[world.reader.index as int] as nat)
        }),
{
    lemma_parallel_run(job, events);
    crate::sequential::lemma_sum_first(
        job.sizes,
        parallel_run(job, events).reader.index + 1,
        job.sizes.len() as int,
    );
}

} // verus!
