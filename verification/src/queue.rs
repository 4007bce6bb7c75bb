//! Writing the entries of a stream while it is still being read.
//!
//! One reader takes the contents of the entries from the stream and queues them; several writers
//! take them from the queue. What is read ahead is held in memory, of which there is a limit.
//! Waiting and waking is the caller's: each function here is one decision, made while the caller
//! holds the lock.

use std::collections::VecDeque;

use vstd::prelude::*;

use crate::conf::NonZeroUsize;
use crate::error::{
    entry_truncated, finish_failed_writes, ErrorView, FailureView, FastGmadError, IoFailure,
};
use crate::path::{OsPath, PathView};

verus! {

/// What the reader is to do about the next entry.
#[derive(Clone, Copy, Debug, PartialEq, Eq, Structural)]
pub enum Admission {
    /// Copy it straight to its file: it is larger than all the memory there is.
    Stream,
    /// Wait until there is more memory.
    Wait,
    /// Read it into memory: its room is taken.
    Read,
}

/// What a writer is to do next.
#[derive(Debug)]
pub enum Task {
    /// Stop: there is nothing left to write, and there will not be.
    Stop,
    /// Wait until there is something to write.
    Wait,
    /// Write these bytes to the file at this path.
    Write(OsPath, Vec<u8>),
}

/// Contents that wait to be written, and the path they go to.
#[verifier::ext_equal]
pub struct Queued {
    pub path: PathView,
    pub contents: Seq<u8>,
}

/// What reader and writers share.
#[derive(Debug)]
pub struct WriteQueue {
    /// How many bytes may be held in memory.
    pub limit: usize,
    /// What waits to be written, in the order in which it was read.
    pub queue: VecDeque<(OsPath, Vec<u8>)>,
    /// How many bytes of memory are taken.
    pub mem_used: usize,
    /// How many files could not be written.
    pub failed_writes: usize,
    /// Whether the reader has stopped.
    pub producer_done: bool,
}

/// What a [`WriteQueue`] holds.
#[verifier::ext_equal]
pub struct QueueView {
    pub limit: nat,
    pub queue: Seq<Queued>,
    pub mem_used: nat,
    pub failed_writes: nat,
    pub producer_done: bool,
}

impl View for WriteQueue {
    type V = QueueView;

    open spec fn view(&self) -> QueueView {
        QueueView {
            limit: self.limit as nat,
            queue: self.queue@.map_values(
                |item: (OsPath, Vec<u8>)| Queued { path: item.0@, contents: item.1@ },
            ),
            mem_used: self.mem_used as nat,
            failed_writes: self.failed_writes as nat,
            producer_done: self.producer_done,
        }
    }
}

impl QueueView {
    /// Nothing is read yet.
    pub open spec fn begin(limit: nat) -> QueueView {
        QueueView {
            limit,
            queue: Seq::empty(),
            mem_used: 0,
            failed_writes: 0,
            producer_done: false,
        }
    }

    /// Whether the memory taken stays a number where `size` bytes more are taken.
    pub open spec fn admissible(self, size: nat) -> bool {
        self.limit == usize::MAX && size <= usize::MAX ==> self.mem_used + size <= usize::MAX
    }

    /// What the reader is to do about an entry of `size` bytes.
    pub open spec fn admission(self, size: nat) -> Admission {
        if size > self.limit {
            Admission::Stream
        } else if self.mem_used + size > self.limit {
            Admission::Wait
        } else {
            Admission::Read
        }
    }

    /// The queue after an entry of `size` bytes was asked about: if it is to be read, its room is
    /// taken.
    pub open spec fn admitting(self, size: nat) -> QueueView {
        if self.admission(size) is Read {
            QueueView { mem_used: self.mem_used + size, ..self }
        } else {
            self
        }
    }

    /// Whether a writer that asks is to stop: nothing is queued, and nothing will be.
    pub open spec fn is_at_end(self) -> bool {
        self.queue.len() == 0 && self.producer_done
    }

    /// The queue with `item` at its end.
    pub open spec fn receiving(self, item: Queued) -> QueueView {
        QueueView { queue: self.queue.push(item), ..self }
    }

    /// The queue without its first item, where it has one.
    pub open spec fn taking(self) -> QueueView {
        if self.queue.len() == 0 {
            self
        } else {
            QueueView { queue: self.queue.drop_first(), ..self }
        }
    }

    /// The queue after `len` bytes were written to a file, or could not be: their room is free.
    pub open spec fn finishing(self, len: nat, written: bool) -> QueueView {
        QueueView {
            mem_used: (self.mem_used - len) as nat,
            failed_writes: self.failed_writes + if written {
                0nat
            } else {
                1nat
            },
            ..self
        }
    }

    /// The queue after the reader has stopped.
    pub open spec fn closing(self) -> QueueView {
        QueueView { producer_done: true, ..self }
    }
}

/// Whether `read` is all of the contents of an entry of `size` bytes.
pub open spec fn is_whole(read: Result<Vec<u8>, IoFailure>, size: nat) -> bool {
    read matches Ok(buf) && buf@.len() == size
}

impl WriteQueue {
    /// An empty queue; no more than `limit` bytes are to be held in memory.
    pub fn new(limit: NonZeroUsize) -> (queue: WriteQueue)
        ensures
            queue@ == QueueView::begin(limit@),
    {
        let queue = WriteQueue {
            limit: limit.get(),
            queue: VecDeque::new(),
            mem_used: 0,
            failed_writes: 0,
            producer_done: false,
        };
        assert(queue@.queue =~= Seq::empty());
        queue
    }

    /// What the reader is to do about the next entry, which is of `size` bytes; if it is to be
    /// read into memory, its room is taken from now on. Where the limit is the largest number there
    /// is, what is taken must not exceed it.
    pub fn reserve(&mut self, size: u64) -> (todo: Admission)
        requires
            old(self)@.admissible(size as nat),
        ensures
            todo == old(self)@.admission(size as nat),
            final(self)@ == old(self)@.admitting(size as nat),
    {
        if size > self.limit as u64 {
            return Admission::Stream;
        }
        let size = size as usize;
        if self.mem_used.saturating_add(size) > self.limit {
            return Admission::Wait;
        }
        self.mem_used = self.mem_used + size;
        Admission::Read
    }

    /// Queues what was read of the entry of `size` bytes that goes to `path`; `read` is what there
    /// was to read, up to that size, or why it could not be read. Fewer bytes than that are an
    /// error.
    pub fn receive(&mut self, path: &OsPath, size: u64, read: Result<Vec<u8>, IoFailure>) -> (out:
        Result<(), FastGmadError>)
        ensures
            match read {
                Ok(buf) => if buf@.len() == size {
                    &&& out is Ok
                    &&& final(self)@ == old(self)@.receiving(
                        (Queued { path: path@, contents: buf@ }),
                    )
                } else {
                    &&& out matches Err(e)
                    &&& e@ == ErrorView::entry(FailureView::end_of_file(), path@)
                    &&& final(self)@ == old(self)@
                },
                Err(failure) => {
                    &&& out matches Err(e)
                    &&& e@ == ErrorView::entry(failure@, path@)
                    &&& final(self)@ == old(self)@
                },
            },
            out is Ok <==> is_whole(read, size as nat),
    {
        match read {
            Ok(buf) => {
                if buf.len() as u64 != size {
                    return Err(entry_truncated(IoFailure::end_of_file(), path));
                }
                let ghost item = Queued { path: path@, contents: buf@ };
                self.queue.push_back((path.copy(), buf));
                assert(self@.queue =~= old(self)@.queue.push(item));
                Ok(())
            },
            Err(failure) => Err(entry_truncated(failure, path)),
        }
    }

    /// What a writer is to do next. What it is to write is no longer in the queue.
    pub fn take(&mut self) -> (task: Task)
        ensures
            final(self)@ == old(self)@.taking(),
            match task {
                Task::Stop => old(self)@.queue.len() == 0 && old(self)@.producer_done,
                Task::Wait => old(self)@.queue.len() == 0 && !old(self)@.producer_done,
                Task::Write(path, buf) => {
                    &&& old(self)@.queue.len() > 0
                    &&& old(self)@.queue[0] == (Queued { path: path@, contents: buf@ })
                },
            },
            task is Stop <==> old(self)@.is_at_end(),
    {
        match self.queue.pop_front() {
            Some((path, buf)) => {
                assert(self@.queue =~= old(self)@.queue.drop_first());
                assert(old(self)@.queue[0] == (Queued { path: path@, contents: buf@ }));
                Task::Write(path, buf)
            },
            None => {
                assert(self@.queue =~= old(self)@.queue);
                if self.producer_done {
                    Task::Stop
                } else {
                    Task::Wait
                }
            },
        }
    }

    /// Notes that a writer has written the `len` bytes that it took, or that it could not.
    pub fn finish(&mut self, len: usize, written: bool)
        requires
            len <= old(self)@.mem_used,
            !written ==> old(self)@.failed_writes < usize::MAX,
        ensures
            final(self)@ == old(self)@.finishing(len as nat, written),
    {
        self.mem_used = self.mem_used - len;
        if !written {
            self.failed_writes = self.failed_writes + 1;
        }
    }

    /// Notes that the reader has stopped.
    pub fn close(&mut self)
        ensures
            final(self)@ == old(self)@.closing(),
    {
        self.producer_done = true;
    }

    /// The end of the writing, in which the reader itself could not write `inline_failed_writes`
    /// files: an error if there are files that could not be written.
    pub fn result(&self, inline_failed_writes: usize) -> (out: Result<(), FastGmadError>)
        requires
            self@.failed_writes + inline_failed_writes <= usize::MAX,
        ensures
            self@.failed_writes + inline_failed_writes == 0 ==> out is Ok,
            self@.failed_writes + inline_failed_writes > 0 ==> {
                &&& out matches Err(e)
                &&& e@ == ErrorView::unwritten(self@.failed_writes + inline_failed_writes as nat)
            },
            crate::error::error_of(out) == crate::error::end_of_writes(
                self@.failed_writes + inline_failed_writes as nat,
            ),
    {
        finish_failed_writes(self.failed_writes + inline_failed_writes)
    }
}

/// Something that happens to the queue.
pub enum QueueEvent {
    /// The reader asks about an entry of this many bytes.
    Ask(nat),
    /// The reader hands over what it has read.
    Receive(Queued),
    /// A writer asks what to do.
    Take,
    /// The writer that took this item, by its number among those not finished, has written it or
    /// could not.
    Finish(int, bool),
    /// The reader stops.
    Close,
}

/// The queue, and what reader and writers are about.
#[verifier::ext_equal]
pub struct QueueWorld {
    pub state: QueueView,
    /// How many bytes the reader is reading.
    pub reading: Option<nat>,
    /// What the writers are writing.
    pub writing: Seq<Queued>,
    /// What the reader has handed over so far.
    pub received: Seq<Queued>,
    /// What the writers have taken so far.
    pub taken: Seq<Queued>,
    /// What was written, and what could not be written.
    pub written: Seq<Queued>,
    pub unwritten: Seq<Queued>,
}

impl QueueWorld {
    /// Nothing has happened yet.
    pub open spec fn begin(limit: nat) -> QueueWorld {
        QueueWorld {
            state: QueueView::begin(limit),
            reading: None,
            writing: Seq::empty(),
            received: Seq::empty(),
            taken: Seq::empty(),
            written: Seq::empty(),
            unwritten: Seq::empty(),
        }
    }

    /// Whether the event can happen: the reader asks when it is not reading, and hands over as
    /// many bytes as it was to read; it does neither after it has stopped; and a writer finishes
    /// what it has taken.
    pub open spec fn allows(self, event: QueueEvent) -> bool {
        match event {
            QueueEvent::Ask(_) => self.reading is None && !self.state.producer_done,
            QueueEvent::Receive(item) => self.reading == Some(item.contents.len())
                && !self.state.producer_done,
            QueueEvent::Take => true,
            QueueEvent::Finish(i, _) => 0 <= i < self.writing.len(),
            QueueEvent::Close => true,
        }
    }

    /// The world after the event.
    pub open spec fn after(self, event: QueueEvent) -> QueueWorld {
        match event {
            QueueEvent::Ask(size) => QueueWorld {
                state: self.state.admitting(size),
                reading: if self.state.admission(size) is Read {
                    Some(size)
                } else {
                    None
                },
                ..self
            },
            QueueEvent::Receive(item) => QueueWorld {
                state: self.state.receiving(item),
                reading: None,
                received: self.received.push(item),
                ..self
            },
            QueueEvent::Take => if self.state.queue.len() == 0 {
                self
            } else {
                QueueWorld {
                    state: self.state.taking(),
                    writing: self.writing.push(self.state.queue[0]),
                    taken: self.taken.push(self.state.queue[0]),
                    ..self
                }
            },
            QueueEvent::Finish(i, written) => {
                let item = self.writing[i];
                QueueWorld {
                    state: self.state.finishing(item.contents.len(), written),
                    writing: self.writing.remove(i),
                    written: if written {
                        self.written.push(item)
                    } else {
                        self.written
                    },
                    unwritten: if written {
                        self.unwritten
                    } else {
                        self.unwritten.push(item)
                    },
                    ..self
                }
            },
            QueueEvent::Close => QueueWorld { state: self.state.closing(), ..self },
        }
    }
}

/// The world after these events.
pub open spec fn queue_run(limit: nat, events: Seq<QueueEvent>) -> QueueWorld
    decreases events.len(),
{
    if events.len() == 0 {
        QueueWorld::begin(limit)
    } else {
        queue_run(limit, events.drop_last()).after(events.last())
    }
}

/// Whether these events can happen one after the other.
pub open spec fn queue_run_possible(limit: nat, events: Seq<QueueEvent>) -> bool
    decreases events.len(),
{
    events.len() > 0 ==> {
        &&& queue_run_possible(limit, events.drop_last())
        &&& queue_run(limit, events.drop_last()).allows(events.last())
    }
}

/// How many bytes `items` are together.
pub open spec fn bytes_in(items: Seq<Queued>) -> nat
    decreases items.len(),
{
    if items.len() == 0 {
        0
    } else {
        bytes_in(items.drop_last()) + items.last().contents.len()
    }
}

/// Dropping an item anywhere takes its bytes away.
proof fn lemma_bytes_without(items: Seq<Queued>, i: int)
    requires
        0 <= i < items.len(),
    ensures
        bytes_in(items.remove(i)) + items[i].contents.len() == bytes_in(items),
    decreases items.len(),
{
    if i == items.len() - 1 {
        assert(items.remove(i) =~= items.drop_last());
    } else {
        lemma_bytes_without(items.drop_last(), i);
        assert(items.remove(i).drop_last() =~= items.drop_last().remove(i));
    }
}

/// What holds of the queue at any time.
pub open spec fn queue_in_step(world: QueueWorld, limit: nat) -> bool {
    &&& world.state.limit == limit
    &&& world.state.mem_used == bytes_in(world.state.queue) + bytes_in(world.writing)
        + match world.reading {
        Some(n) => n,
        None => 0,
    }
    &&& world.state.mem_used <= limit
    &&& world.state.mem_used <= bytes_in(world.received) + match world.reading {
        Some(n) => n,
        None => 0,
    }
    &&& world.received == world.taken + world.state.queue
    &&& world.taken.to_multiset() == world.writing.to_multiset().add(
        world.written.to_multiset(),
    ).add(world.unwritten.to_multiset())
    &&& world.state.failed_writes == world.unwritten.len()
}

/// At the start the queue is in step.
pub proof fn lemma_queue_begin(limit: nat)
    ensures
        queue_in_step(QueueWorld::begin(limit), limit),
{
    broadcast use vstd::seq_lib::group_to_multiset_ensures;

    let world = QueueWorld::begin(limit);
    assert(world.received =~= world.taken + world.state.queue);
    assert(world.taken.to_multiset() =~= world.writing.to_multiset().add(
        world.written.to_multiset(),
    ).add(world.unwritten.to_multiset()));
}

/// An event keeps the queue in step.
pub proof fn lemma_queue_step(world: QueueWorld, limit: nat, event: QueueEvent)
    requires
        queue_in_step(world, limit),
        world.allows(event),
    ensures
        queue_in_step(world.after(event), limit),
{
    broadcast use vstd::seq_lib::group_to_multiset_ensures;

    let next = world.after(event);
    match event {
        QueueEvent::Ask(_) => {},
        QueueEvent::Receive(item) => {
            assert(next.state.queue.drop_last() =~= world.state.queue);
            assert(next.received.drop_last() =~= world.received);
            assert(next.received =~= next.taken + next.state.queue);
        },
        QueueEvent::Take => {
            if world.state.queue.len() > 0 {
                lemma_bytes_without(world.state.queue, 0);
                assert(world.state.queue.remove(0) =~= world.state.queue.drop_first());
                assert(next.writing.drop_last() =~= world.writing);
                assert(next.received =~= next.taken + next.state.queue);
                assert(next.taken.to_multiset() =~= next.writing.to_multiset().add(
                    next.written.to_multiset(),
                ).add(next.unwritten.to_multiset()));
            }
        },
        QueueEvent::Finish(i, _) => {
            lemma_bytes_without(world.writing, i);
            assert(next.taken.to_multiset() =~= next.writing.to_multiset().add(
                next.written.to_multiset(),
            ).add(next.unwritten.to_multiset()));
        },
        QueueEvent::Close => {},
    }
}

/// Any number of events keeps the queue in step.
proof fn lemma_queue_run(limit: nat, events: Seq<QueueEvent>)
    requires
        queue_run_possible(limit, events),
    ensures
        queue_in_step(queue_run(limit, events), limit),
    decreases events.len(),
{
    if events.len() == 0 {
        lemma_queue_begin(limit);
    } else {
        lemma_queue_run(limit, events.drop_last());
        lemma_queue_step(queue_run(limit, events.drop_last()), limit, events.last());
    }
}

/// Whatever happens in whatever order: the contents that are being read, are queued or are being
/// written are together as many bytes as are booked, and those are never more than the limit.
pub proof fn law_memory_is_bounded(limit: nat, events: Seq<QueueEvent>)
    requires
        queue_run_possible(limit, events),
    ensures
        ({
            let world = queue_run(limit, events);
            &&& world.state.mem_used == bytes_in(world.state.queue) + bytes_in(world.writing)
                + match world.reading {
                Some(n) => n,
                None => 0,
            }
            &&& world.state.mem_used <= limit
        }),
{
    lemma_queue_run(limit, events);
}

/// What a writer finishes is booked: the memory that it gives back was taken.
pub proof fn law_finish_is_booked(limit: nat, events: Seq<QueueEvent>, i: int)
    requires
        queue_run_possible(limit, events),
        0 <= i < queue_run(limit, events).writing.len(),
    ensures
        queue_run(limit, events).writing[i].contents.len() <= queue_run(
            limit,
            events,
        ).state.mem_used,
{
    lemma_queue_run(limit, events);
    lemma_bytes_without(queue_run(limit, events).writing, i);
}

/// The writers take what was read in the order in which it was read, and nothing twice; everything
/// that they take is written, could not be written, or is still being written; and the files that
/// could not be written are counted.
pub proof fn law_nothing_is_lost(limit: nat, events: Seq<QueueEvent>)
    requires
        queue_run_possible(limit, events),
    ensures
        ({
            let world = queue_run(limit, events);
            &&& world.received == world.taken + world.state.queue
            &&& world.taken.to_multiset() == world.writing.to_multiset().add(
                world.written.to_multiset(),
            ).add(world.unwritten.to_multiset())
            &&& world.state.failed_writes == world.unwritten.len()
        }),
{
    lemma_queue_run(limit, events);
}

/// When the writers have stopped, each with nothing left in its hands, everything that was read
/// is written or counted as not written.
pub proof fn law_all_is_written_at_the_end(limit: nat, events: Seq<QueueEvent>)
    requires
        queue_run_possible(limit, events),
        queue_run(limit, events).state.queue.len() == 0,
        queue_run(limit, events).writing.len() == 0,
    ensures
        ({
            let world = queue_run(limit, events);
            &&& world.received.to_multiset() == world.written.to_multiset().add(
                world.unwritten.to_multiset(),
            )
            &&& world.state.failed_writes == 0 ==> world.received.to_multiset()
                == world.written.to_multiset()
        }),
{
    broadcast use vstd::seq_lib::group_to_multiset_ensures;

    lemma_queue_run(limit, events);
    let world = queue_run(limit, events);
    assert(world.received =~= world.taken);
    assert(world.writing =~= Seq::empty());
    assert(world.received.to_multiset() =~= world.written.to_multiset().add(
        world.unwritten.to_multiset(),
    ));
    if world.state.failed_writes == 0 {
        assert(world.unwritten =~= Seq::empty());
        assert(world.received.to_multiset() =~= world.written.to_multiset());
    }
}

/// Reader and writers never wait for each other: when the reader is told to wait for memory, there
/// is something queued or being written that will give some back.
pub proof fn law_no_deadlock(limit: nat, events: Seq<QueueEvent>, size: nat)
    requires
        queue_run_possible(limit, events),
        queue_run(limit, events).reading is None,
        queue_run(limit, events).state.admission(size) is Wait,
    ensures
        ({
            let world = queue_run(limit, events);
            world.state.queue.len() > 0 || world.writing.len() > 0
        }),
{
    lemma_queue_run(limit, events);
}

} // verus!
