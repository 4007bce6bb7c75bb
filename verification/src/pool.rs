//! Writing the entries of a file, several at a time.
//!
//! Several workers share a list of entries: each takes the next one that no other has taken,
//! copies its contents out of the file, and goes on until there are none left or something could
//! not be read. Each function here is one decision, made while the caller holds the lock.

use vstd::prelude::*;

use crate::copy::{write_entry_at, FileCopy, FileStep};
use crate::copy_laws::FileWorld;
use crate::error::{finish_failed_writes, ErrorView, FastGmadError, IoFailure};
use crate::index::{EntryView, GmaEntry};
use crate::path::{OsPath, PathView};

verus! {

/// What the workers share.
#[derive(Debug)]
pub struct ExtractPool {
    /// The first entry that nobody has taken yet.
    pub next_entry: usize,
    /// How many files could not be written.
    pub failed_writes: usize,
    /// Whether to stop.
    pub stop: bool,
    /// The first error that came up.
    pub read_error: Option<FastGmadError>,
}

/// What an [`ExtractPool`] holds.
#[verifier::ext_equal]
pub struct PoolView {
    pub next_entry: nat,
    pub failed_writes: nat,
    pub stop: bool,
    pub read_error: Option<ErrorView>,
}

impl View for ExtractPool {
    type V = PoolView;

    open spec fn view(&self) -> PoolView {
        PoolView {
            next_entry: self.next_entry as nat,
            failed_writes: self.failed_writes as nat,
            stop: self.stop,
            read_error: match self.read_error {
                Some(e) => Some(e@),
                None => None,
            },
        }
    }
}

impl PoolView {
    /// Nothing is taken yet.
    pub open spec fn begin() -> PoolView {
        PoolView { next_entry: 0, failed_writes: 0, stop: false, read_error: None }
    }

    /// The pool after `error` came up: it is kept if it is the first, and everyone is to stop.
    pub open spec fn failing(self, error: ErrorView) -> PoolView {
        PoolView {
            stop: true,
            read_error: if self.read_error is None {
                Some(error)
            } else {
                self.read_error
            },
            ..self
        }
    }

    /// The error that the extraction ends with, if any.
    pub open spec fn end(self) -> Option<ErrorView> {
        if self.read_error is Some {
            self.read_error
        } else {
            crate::error::end_of_writes(self.failed_writes)
        }
    }

    /// Whether a worker that asks for an entry gets one.
    pub open spec fn has_work(self, len: nat) -> bool {
        !self.stop && self.next_entry < len
    }
}

/// What a worker is to do next.
#[derive(Clone, Copy, Debug, PartialEq, Eq, Structural)]
pub enum WorkerStep {
    /// Open the file that the entries lie in.
    Open,
    /// Ask for an entry.
    Claim,
    /// Copy the entry of this number to its file: do what the copy says.
    Copy(usize, FileCopy),
    /// Nothing.
    Stop,
}

/// What became of what a worker was to do.
#[derive(Debug)]
pub enum WorkerEvent {
    /// The file was opened, or could not be.
    Opened(Result<(), IoFailure>),
    /// The worker asks for an entry.
    Claim,
    /// The copy made a step, with this outcome.
    Copied(Result<(), IoFailure>),
}

impl WorkerStep {
    /// Whether `event` can come of what was to be done.
    pub open spec fn expects(self, event: WorkerEvent) -> bool {
        match event {
            WorkerEvent::Opened(_) => self is Open,
            WorkerEvent::Claim => self is Claim,
            WorkerEvent::Copied(_) => self is Copy,
        }
    }

    /// A copy that is to be gone on with is that of an entry, and is not over.
    pub open spec fn valid(self, len: nat) -> bool {
        self matches WorkerStep::Copy(i, copy) ==> {
            &&& i < len
            &&& copy.valid()
            &&& !(copy.step is Done)
            &&& !(copy.step is Broken)
        }
    }

    /// What a worker is to do after the file was opened or could not be.
    pub open spec fn opened(worked: bool) -> WorkerStep {
        if worked {
            WorkerStep::Claim
        } else {
            WorkerStep::Stop
        }
    }

    /// What a worker is to do after it asked for one of `entries`.
    pub open spec fn claiming(pool: PoolView, entries: Seq<EntryView>) -> WorkerStep {
        let next = pool.next_entry as int;
        if pool.has_work(entries.len()) {
            WorkerStep::Copy(
                next as usize,
                FileCopy::begin(entries[next].offset as u64, entries[next].size as u64),
            )
        } else {
            WorkerStep::Stop
        }
    }

    /// What a worker is to do after its copy has come to `copy`.
    pub open spec fn copying(index: usize, copy: FileCopy) -> WorkerStep {
        if copy.step is Broken {
            WorkerStep::Stop
        } else if copy.step is Done {
            WorkerStep::Claim
        } else {
            WorkerStep::Copy(index, copy)
        }
    }
}

impl PoolView {
    /// The pool after the file at `gma_path` was opened or could not be.
    pub open spec fn opening(self, gma_path: PathView, outcome: Result<(), IoFailure>) -> PoolView {
        match outcome {
            Ok(_) => self,
            Err(failure) => self.failing(
                ErrorView::io(failure@, "opening GMA file"@, Some(gma_path)),
            ),
        }
    }

    /// The pool after a worker asked for one of `len` entries.
    pub open spec fn claimed(self, len: nat) -> PoolView {
        if self.has_work(len) {
            PoolView { next_entry: self.next_entry + 1, ..self }
        } else {
            self
        }
    }

    /// The pool after the copy of the entry that goes to `path` made a step, and came from `before`
    /// to `copy`.
    pub open spec fn copied(
        self,
        path: PathView,
        before: FileCopy,
        copy: FileCopy,
        outcome: Result<(), IoFailure>,
    ) -> PoolView {
        if copy.step is Broken {
            self.failing(ErrorView::entry(crate::copy::broken_by(before, outcome), path))
        } else if copy.step is Done && copy.write_failed {
            PoolView { failed_writes: self.failed_writes + 1, ..self }
        } else {
            self
        }
    }
}

impl ExtractPool {
    /// A pool of which nothing is taken yet.
    pub fn new() -> (pool: ExtractPool)
        ensures
            pool@ == PoolView::begin(),
    {
        ExtractPool { next_entry: 0, failed_writes: 0, stop: false, read_error: None }
    }

    /// Keeps `error` if it is the first, and tells everyone to stop.
    fn fail(&mut self, error: FastGmadError)
        ensures
            final(self)@ == old(self)@.failing(error@),
    {
        if self.read_error.is_none() {
            self.read_error = Some(error);
        }
        self.stop = true;
    }

    /// The end of the extraction: the first error that came up, or else an error if there are files
    /// that could not be written.
    pub fn result(self) -> (out: Result<(), FastGmadError>)
        ensures
            match self@.read_error {
                Some(error) => out matches Err(e) && e@ == error,
                None => {
                    &&& self@.failed_writes == 0 ==> out is Ok
                    &&& self@.failed_writes > 0 ==> {
                        &&& out matches Err(e)
                        &&& e@ == ErrorView::unwritten(self@.failed_writes)
                    }
                },
            },
            crate::error::error_of(out) == self@.end(),
    {
        match self.read_error {
            Some(e) => Err(e),
            None => finish_failed_writes(self.failed_writes),
        }
    }
}

/// Takes a worker one step further: `event` is what became of what it was to do. A file that cannot
/// be written is counted and given up; if the archive at `gma_path` cannot be opened or read, that
/// is kept as the error, and no worker takes another entry.
pub fn extract_entries_parallel(
    worker: &mut WorkerStep,
    pool: &mut ExtractPool,
    gma_path: &OsPath,
    entries: &[GmaEntry],
    event: WorkerEvent,
)
    requires
        old(worker).valid(entries@.len()),
        old(worker).expects(event),
        event matches WorkerEvent::Copied(outcome) ==> {
            &&& old(pool)@.failed_writes < usize::MAX
            &&& outcome is Ok ==> old(worker)->Copy_1.can_work()
        },
    ensures
        final(worker).valid(entries@.len()),
        match event {
            WorkerEvent::Opened(outcome) => {
                &&& *final(worker) == WorkerStep::opened(outcome is Ok)
                &&& final(pool)@ == old(pool)@.opening(gma_path@, outcome)
            },
            WorkerEvent::Claim => {
                &&& *final(worker) == WorkerStep::claiming(
                    old(pool)@,
                    crate::index::entry_views(entries@),
                )
                &&& final(pool)@ == old(pool)@.claimed(entries@.len())
            },
            WorkerEvent::Copied(outcome) => {
                let index = old(worker)->Copy_0;
                let before = old(worker)->Copy_1;
                let copy = before.next(outcome is Ok);
                &&& *final(worker) == WorkerStep::copying(index, copy)
                &&& final(pool)@ == old(pool)@.copied(
                    entries@[index as int].path@,
                    before,
                    copy,
                    outcome,
                )
            },
        },
{
    match event {
        WorkerEvent::Opened(outcome) => match outcome {
            Ok(_) => {
                *worker = WorkerStep::Claim;
            },
            Err(failure) => {
                pool.fail(FastGmadError::io(failure, "opening GMA file", Some(gma_path)));
                *worker = WorkerStep::Stop;
            },
        },
        WorkerEvent::Claim => {
            if pool.stop || pool.next_entry >= entries.len() {
                *worker = WorkerStep::Stop;
            } else {
                let index = pool.next_entry;
                pool.next_entry = index + 1;
                let entry = &entries[index];
                *worker = WorkerStep::Copy(index, FileCopy::new(entry.offset, entry.size));
            }
        },
        WorkerEvent::Copied(outcome) => {
            if let WorkerStep::Copy(index, state) = *worker {
                let mut copy = state;
                let out = write_entry_at(&mut copy, &entries[index].path, outcome);
                match out {
                    Err(e) => {
                        pool.fail(e);
                        *worker = WorkerStep::Stop;
                    },
                    Ok(_) => {
                        if matches!(copy.step, FileStep::Done) {
                            if copy.write_failed {
                                pool.failed_writes = pool.failed_writes + 1;
                            }
                            *worker = WorkerStep::Claim;
                        } else {
                            *worker = WorkerStep::Copy(index, copy);
                        }
                    },
                }
            }
        },
    }
}

/// What is to be extracted: entries with their offsets into a file, the path of that file, and
/// what it holds.
pub struct PoolJob {
    pub entries: Seq<EntryView>,
    pub gma_path: PathView,
    pub source: Seq<u8>,
}

impl PoolJob {
    /// Lengths, offsets and sizes are machine numbers.
    pub open spec fn valid(self) -> bool {
        &&& self.entries.len() <= usize::MAX
        &&& self.source.len() <= u64::MAX
        &&& forall|i: int|
            0 <= i < self.entries.len() ==> (#[trigger] self.entries[i]).offset <= u64::MAX
                && self.entries[i].size <= u64::MAX
    }

    /// Whether the contents of the entry at `i` lie within the file.
    pub open spec fn is_within(self, i: int) -> bool {
        let entry = self.entries[i];
        entry.size > 0 ==> entry.offset + entry.size <= self.source.len()
    }

    /// The contents of the entry at `i`.
    pub open spec fn contents(self, i: int) -> Seq<u8> {
        let entry = self.entries[i];
        if entry.size == 0 {
            Seq::empty()
        } else {
            self.source.subrange(entry.offset as int, (entry.offset + entry.size) as int)
        }
    }
}

/// How far the workers are.
pub struct PoolWorld {
    pub pool: PoolView,
    /// What each worker is to do next, and the file that it is copying to.
    pub workers: Seq<WorkerStep>,
    pub copies: Seq<FileWorld>,
    /// What was written, by the numbers of the entries.
    pub files: Map<int, Seq<u8>>,
    /// The entries whose files could not be written.
    pub lost: Seq<int>,
}

impl PoolWorld {
    /// As many workers as there are to be, none of which has done anything yet.
    pub open spec fn begin(job: PoolJob, threads: nat) -> PoolWorld {
        let blank = FileWorld { source: job.source, held: Seq::empty(), file: Seq::empty() };
        PoolWorld {
            pool: PoolView::begin(),
            workers: Seq::new(threads, |k: int| WorkerStep::Open),
            copies: Seq::new(threads, |k: int| blank),
            files: Map::empty(),
            lost: Seq::empty(),
        }
    }

    /// Whether the event can happen to the worker `k`.
    pub open spec fn allows(self, k: int, event: WorkerEvent) -> bool {
        &&& 0 <= k < self.workers.len()
        &&& self.workers[k].expects(event)
        &&& event matches WorkerEvent::Copied(outcome) ==> self.copies[k].allows(
            self.workers[k]->Copy_1.step,
            outcome is Ok,
        )
    }

    /// The world after the event has happened to the worker `k`.
    pub open spec fn after(self, job: PoolJob, k: int, event: WorkerEvent) -> PoolWorld {
        match event {
            WorkerEvent::Opened(outcome) => PoolWorld {
                pool: self.pool.opening(job.gma_path, outcome),
                workers: self.workers.update(k, WorkerStep::opened(outcome is Ok)),
                ..self
            },
            WorkerEvent::Claim => PoolWorld {
                pool: self.pool.claimed(job.entries.len()),
                workers: self.workers.update(k, WorkerStep::claiming(self.pool, job.entries)),
                ..self
            },
            WorkerEvent::Copied(outcome) => {
                let index = self.workers[k]->Copy_0;
                let before = self.workers[k]->Copy_1;
                let copy = before.next(outcome is Ok);
                let now = self.copies[k].after(before.step, outcome is Ok);
                PoolWorld {
                    pool: self.pool.copied(
                        job.entries[index as int].path,
                        before,
                        copy,
                        outcome,
                    ),
                    workers: self.workers.update(k, WorkerStep::copying(index, copy)),
                    copies: self.copies.update(k, now),
                    files: if copy.step is Done && !copy.write_failed {
                        self.files.insert(index as int, now.file)
                    } else {
                        self.files
                    },
                    lost: if copy.step is Done && copy.write_failed {
                        self.lost.push(index as int)
                    } else {
                        self.lost
                    },
                }
            },
        }
    }

    /// Whether the worker `k` is copying the entry at `i`.
    pub open spec fn copies_entry(self, k: int, i: int) -> bool {
        &&& 0 <= k < self.workers.len()
        &&& self.workers[k] matches WorkerStep::Copy(index, _)
        &&& index == i
    }

    /// Whether the entry at `i` was written or given up.
    pub open spec fn is_done(self, i: int) -> bool {
        self.files.dom().contains(i) || self.lost.contains(i)
    }
}

/// The world after these events, each with the worker that it happened to.
pub open spec fn pool_run(
    job: PoolJob,
    threads: nat,
    events: Seq<(int, WorkerEvent)>,
) -> PoolWorld
    decreases events.len(),
{
    if events.len() == 0 {
        PoolWorld::begin(job, threads)
    } else {
        pool_run(job, threads, events.drop_last()).after(job, events.last().0, events.last().1)
    }
}

/// Whether these events can happen one after the other.
pub open spec fn pool_run_possible(
    job: PoolJob,
    threads: nat,
    events: Seq<(int, WorkerEvent)>,
) -> bool
    decreases events.len(),
{
    events.len() > 0 ==> {
        &&& pool_run_possible(job, threads, events.drop_last())
        &&& pool_run(job, threads, events.drop_last()).allows(events.last().0, events.last().1)
    }
}

/// What holds of the workers at any time.
pub open spec fn pool_in_step(job: PoolJob, world: PoolWorld, threads: nat) -> bool {
    &&& world.workers.len() == threads
    &&& world.copies.len() == threads
    &&& world.pool.next_entry <= job.entries.len()
    &&& world.pool.stop <==> world.pool.read_error is Some
    &&& world.pool.failed_writes == world.lost.len()
    &&& world.lost.no_duplicates()
    &&& forall|k: int| 0 <= k < threads ==> (#[trigger] world.copies[k]).source == job.source
    &&& forall|k: int|
        0 <= k < threads ==> (#[trigger] world.workers[k] matches WorkerStep::Copy(index, copy)
            ==> {
            &&& index < world.pool.next_entry
            &&& !world.is_done(index as int)
            &&& !(copy.step is Done)
            &&& !(copy.step is Broken)
            &&& crate::copy_laws::file_in_step(
                copy,
                world.copies[k],
                job.source,
                job.entries[index as int].offset as u64,
                job.entries[index as int].size as u64,
            )
        })
    &&& forall|k: int|
        0 <= k < threads && #[trigger] world.workers[k] is Stop ==> !world.pool.has_work(
            job.entries.len(),
        )
    &&& forall|k: int, l: int, i: int|
        #[trigger] world.copies_entry(k, i) && #[trigger] world.copies_entry(l, i) ==> k == l
    &&& forall|i: int| #[trigger]
        world.is_done(i) ==> 0 <= i < world.pool.next_entry
    &&& forall|i: int| #[trigger]
        world.files.dom().contains(i) ==> {
            &&& !world.lost.contains(i)
            &&& world.files[i] == job.contents(i)
        }
    &&& forall|i: int| #[trigger] world.is_done(i) ==> job.is_within(i)
    &&& !world.pool.stop ==> forall|i: int|
        0 <= i < world.pool.next_entry ==> #[trigger] world.is_done(i) || exists|k: int|
            world.copies_entry(k, i)
}

/// An event keeps the workers in step.
proof fn lemma_pool_step(job: PoolJob, world: PoolWorld, threads: nat, k: int, event: WorkerEvent)
    requires
        job.valid(),
        pool_in_step(job, world, threads),
        world.allows(k, event),
    ensures
        pool_in_step(job, world.after(job, k, event), threads),
{
    let next = world.after(job, k, event);
    match event {
        WorkerEvent::Opened(outcome) => {
            assert forall|l: int, i: int|
                #![trigger next.copies_entry(l, i)]
                #![trigger world.copies_entry(l, i)]
                next.copies_entry(l, i) == world.copies_entry(l, i) by {}
            assert forall|i: int| #[trigger] next.is_done(i) == world.is_done(i) by {}
        },
        WorkerEvent::Claim => {
            let claimed = world.pool.next_entry as int;
            assert forall|i: int| #[trigger] next.is_done(i) == world.is_done(i) by {}
            assert forall|l: int, i: int| #[trigger]
                next.copies_entry(l, i) == (world.copies_entry(l, i) || (l == k && i == claimed
                && world.pool.has_work(job.entries.len()))) by {}
            if world.pool.has_work(job.entries.len()) {
                assert(next.copies_entry(k, claimed));
            }
        },
        WorkerEvent::Copied(outcome) => {
            let index = world.workers[k]->Copy_0;
            let before = world.workers[k]->Copy_1;
            let copy = before.next(outcome is Ok);
            let entry = job.entries[index as int];
            crate::copy_laws::lemma_file_step(
                before,
                world.copies[k],
                job.source,
                entry.offset as u64,
                entry.size as u64,
                outcome is Ok,
            );
            assert(world.copies_entry(k, index as int));
            assert forall|i: int| #[trigger]
                next.is_done(i) == (world.is_done(i) || (copy.step is Done && i == index)) by {
                if copy.step is Done && copy.write_failed {
                    assert(next.lost[world.lost.len() as int] == index);
                    if world.lost.contains(i) {
                        let j = world.lost.index_of(i);
                        assert(next.lost[j] == i);
                    }
                }
            }
            assert forall|l: int, i: int| #[trigger]
                next.copies_entry(l, i) == (world.copies_entry(l, i) && (l != k || !(copy.step
                is Done || copy.step is Broken))) by {}
            assert forall|l: int|
                0 <= l < threads && (#[trigger] next.workers[l]) is Copy implies !next.is_done(
                next.workers[l]->Copy_0 as int,
            ) by {
                assert(next.copies_entry(l, next.workers[l]->Copy_0 as int));
            }
            if copy.step is Done && !copy.write_failed {
                assert(next.files[index as int] =~= job.contents(index as int));
            }
            assert forall|i: int| #[trigger] next.files.dom().contains(i) implies !next.lost.contains(
                i,
            ) && next.files[i] == job.contents(i) by {
                if next.lost.contains(i) && !world.lost.contains(i) {
                    assert(i == index);
                    assert(world.is_done(i));
                }
            }
        },
    }
    assert forall|i: int|
        !next.pool.stop && 0 <= i < next.pool.next_entry && !(#[trigger] next.is_done(
            i,
        )) implies exists|l: int| next.copies_entry(l, i) by {
        if i < world.pool.next_entry {
            assert(!world.is_done(i));
            let l = choose|l: int| world.copies_entry(l, i);
            assert(next.copies_entry(l, i));
        } else {
            assert(next.copies_entry(k, i));
        }
    }
}

/// At the start the workers are in step.
proof fn lemma_pool_begin(job: PoolJob, threads: nat)
    ensures
        pool_in_step(job, PoolWorld::begin(job, threads), threads),
{
}

/// Any number of events keeps the workers in step.
pub proof fn lemma_pool_run(job: PoolJob, threads: nat, events: Seq<(int, WorkerEvent)>)
    requires
        job.valid(),
        pool_run_possible(job, threads, events),
    ensures
        pool_in_step(job, pool_run(job, threads, events), threads),
    decreases events.len(),
{
    if events.len() == 0 {
        lemma_pool_begin(job, threads);
    } else {
        lemma_pool_run(job, threads, events.drop_last());
        lemma_pool_step(
            job,
            pool_run(job, threads, events.drop_last()),
            threads,
            events.last().0,
            events.last().1,
        );
    }
}

/// No entry is copied by two workers, nor once more after it was written or given up.
pub proof fn law_entries_are_taken_once(
    job: PoolJob,
    threads: nat,
    events: Seq<(int, WorkerEvent)>,
)
    requires
        job.valid(),
        pool_run_possible(job, threads, events),
    ensures
        ({
            let world = pool_run(job, threads, events);
            &&& forall|k: int, l: int, i: int| #[trigger]
                world.copies_entry(k, i) && #[trigger] world.copies_entry(l, i) ==> k == l
            &&& forall|k: int, i: int| #[trigger]
                world.copies_entry(k, i) ==> !world.is_done(i) && 0 <= i < job.entries.len()
        }),
{
    lemma_pool_run(job, threads, events);
}

/// Every file that a worker has written holds exactly the contents of its entry; the others are
/// counted, each once.
pub proof fn law_pool_write(job: PoolJob, threads: nat, events: Seq<(int, WorkerEvent)>)
    requires
        job.valid(),
        pool_run_possible(job, threads, events),
    ensures
        ({
            let world = pool_run(job, threads, events);
            &&& forall|i: int| #[trigger]
                world.files.dom().contains(i) ==> {
                    &&& 0 <= i < job.entries.len()
                    &&& job.is_within(i)
                    &&& world.files[i] == job.contents(i)
                    &&& !world.lost.contains(i)
                }
            &&& world.lost.no_duplicates()
            &&& world.pool.failed_writes == world.lost.len()
        }),
{
    lemma_pool_run(job, threads, events);
    let world = pool_run(job, threads, events);
    assert forall|i: int| #[trigger] world.files.dom().contains(i) implies 0 <= i
        < job.entries.len() && job.is_within(i) by {
        assert(world.is_done(i));
    }
}

/// When all the workers have stopped and nothing went wrong with reading, every entry was written
/// or is counted, and the contents of every entry lie within the file, of those that are counted
/// too; and if none is counted, every entry was written, just as it is.
pub proof fn law_pool_write_complete(job: PoolJob, threads: nat, events: Seq<(int, WorkerEvent)>)
    requires
        job.valid(),
        threads > 0,
        pool_run_possible(job, threads, events),
        forall|k: int|
            0 <= k < threads ==> (#[trigger] pool_run(job, threads, events).workers[k]) is Stop,
        pool_run(job, threads, events).pool.read_error is None,
    ensures
        ({
            let world = pool_run(job, threads, events);
            &&& forall|i: int| 0 <= i < job.entries.len() ==> #[trigger] world.is_done(i)
            &&& forall|i: int| 0 <= i < job.entries.len() ==> #[trigger] job.is_within(i)
            &&& world.pool.failed_writes == 0 ==> {
                world.files == Map::new(
                    |i: int| 0 <= i < job.entries.len(),
                    |i: int| job.contents(i),
                )
            }
        }),
{
    lemma_pool_run(job, threads, events);
    let world = pool_run(job, threads, events);
    assert(world.workers[0] is Stop);
    assert forall|i: int| 0 <= i < job.entries.len() implies #[trigger] world.is_done(i) by {
        assert(forall|k: int| !world.copies_entry(k, i));
    }
    assert forall|i: int| 0 <= i < job.entries.len() implies #[trigger] job.is_within(i) by {
        assert(world.is_done(i));
    }
    if world.pool.failed_writes == 0 {
        assert forall|i: int| world.files.dom().contains(i) == (0 <= i < job.entries.len()) by {
            assert(world.is_done(i) == world.files.dom().contains(i));
        }
        assert(world.files =~= Map::new(
            |i: int| 0 <= i < job.entries.len(),
            |i: int| job.contents(i),
        ));
    }
}

/// Once something could not be read, no worker that asks gets another entry.
pub proof fn law_pool_stops(
    job: PoolJob,
    threads: nat,
    events: Seq<(int, WorkerEvent)>,
    entries: Seq<EntryView>,
)
    requires
        job.valid(),
        pool_run_possible(job, threads, events),
        pool_run(job, threads, events).pool.read_error is Some,
    ensures
        WorkerStep::claiming(pool_run(job, threads, events).pool, entries) is Stop,
{
    lemma_pool_run(job, threads, events);
}

/// While a worker copies, the count of files that could not be written can go up by one.
pub proof fn law_failed_writes_fit(
    job: PoolJob,
    threads: nat,
    events: Seq<(int, WorkerEvent)>,
    k: int,
    i: int,
)
    requires
        job.valid(),
        pool_run_possible(job, threads, events),
        pool_run(job, threads, events).copies_entry(k, i),
    ensures
        pool_run(job, threads, events).pool.failed_writes < usize::MAX,
{
    lemma_pool_run(job, threads, events);
    let world = pool_run(job, threads, events);
    let both = world.lost.push(i);
    assert(!world.lost.contains(i));
    assert(both.no_duplicates());
    assert forall|j: int| 0 <= j < both.len() implies 0 <= #[trigger] both[j]
        < job.entries.len() by {
        if j < world.lost.len() {
            assert(world.is_done(world.lost[j]));
        }
    }
    lemma_few_distinct(both, job.entries.len() as int);
}

/// There are no more than `n` different numbers from 0 up to `n`.
proof fn lemma_few_distinct(numbers: Seq<int>, n: int)
    requires
        numbers.no_duplicates(),
        0 <= n,
        forall|j: int| 0 <= j < numbers.len() ==> 0 <= #[trigger] numbers[j] < n,
    ensures
        numbers.len() <= n,
{
    numbers.unique_seq_to_set();
    vstd::set_lib::lemma_int_range(0, n);
    assert(numbers.to_set().subset_of(vstd::set_lib::set_int_range(0, n)));
    vstd::set_lib::lemma_len_subset(numbers.to_set(), vstd::set_lib::set_int_range(0, n));
}

} // verus!
