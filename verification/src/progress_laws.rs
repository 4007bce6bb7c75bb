//! Writing the entries of an archive comes to an end.

use vstd::prelude::*;

use crate::copy::{FileStep, StreamStep};
use crate::copy_laws::StreamWorld;
use crate::error::IoFailure;
use crate::parallel::{ParallelEvent, ParallelJob, ParallelWorld, ReaderStep};
use crate::path::PathView;
use crate::pool::{PoolJob, PoolWorld, WorkerEvent, WorkerStep};
use crate::sequential::SequentialWrite;

verus! {

/// A bound on how many steps the entries from `from` on take that are copied from a stream.
pub open spec fn stream_steps(sizes: Seq<u64>, from: int) -> int
    decreases sizes.len() - from,
{
    if from < 0 || from >= sizes.len() {
        0
    } else {
        2 * sizes[from] + 8 + stream_steps(sizes, from + 1)
    }
}

/// No fewer than no steps.
proof fn lemma_stream_steps(sizes: Seq<u64>, from: int)
    ensures
        stream_steps(sizes, from) >= 0,
    decreases sizes.len() - from,
{
    if 0 <= from < sizes.len() {
        lemma_stream_steps(sizes, from + 1);
    }
}

/// Whether a writing of entries is over.
pub open spec fn sequential_is_over(sizes: Seq<u64>, state: SequentialWrite) -> bool {
    state.index >= sizes.len() || state.copy.step is Broken
}

/// The steps that a writing of entries has made and those that it may still make are no more than
/// there are at the start.
proof fn lemma_sequential_steps(sizes: Seq<u64>, start: StreamWorld, outcomes: Seq<bool>)
    requires
        sizes.len() <= usize::MAX,
        start.valid(),
        crate::sequential::sequential_run_possible(sizes, start, outcomes),
    ensures
        ({
            let state = crate::sequential::sequential_run(sizes, start, outcomes).0;
            !sequential_is_over(sizes, state) ==> outcomes.len()
                + crate::copy_laws::stream_steps_left(state.copy) + stream_steps(
                sizes,
                state.index + 1,
            ) <= stream_steps(sizes, 0)
        }),
    decreases outcomes.len(),
{
    if outcomes.len() > 0 {
        let front = outcomes.drop_last();
        lemma_sequential_steps(sizes, start, front);
        crate::sequential::lemma_sequential_run(sizes, start, front);
        let state = crate::sequential::sequential_run(sizes, start, front).0;
        if !sequential_is_over(sizes, state) {
            crate::copy_laws::law_stream_copy_ends(state.copy, outcomes.last());
        }
    }
}

/// Writing the entries of a stream one after the other comes to an end: after so many steps it is
/// over, whatever their outcomes.
pub proof fn law_sequential_ends(sizes: Seq<u64>, start: StreamWorld, outcomes: Seq<bool>)
    requires
        sizes.len() <= usize::MAX,
        start.valid(),
        crate::sequential::sequential_run_possible(sizes, start, outcomes),
        outcomes.len() >= stream_steps(sizes, 0),
    ensures
        sequential_is_over(sizes, crate::sequential::sequential_run(sizes, start, outcomes).0),
{
    lemma_sequential_steps(sizes, start, outcomes);
    crate::sequential::lemma_sequential_run(sizes, start, outcomes);
    let state = crate::sequential::sequential_run(sizes, start, outcomes).0;
    lemma_stream_steps(sizes, state.index + 1);
}

/// The outcome of a step of a copy where nothing goes wrong but that the stream ends or the file is
/// unwritable.
pub open spec fn true_outcome(now: StreamWorld, step: StreamStep, unwritable: bool) -> bool {
    match step {
        StreamStep::Read(n) => now.pos + n <= now.stream.len(),
        StreamStep::Skip(n) => now.pos + n <= now.stream.len(),
        _ => !unwritable,
    }
}

/// A writing of entries in which nothing goes wrong but that the stream ends or files are unwritable
/// can be gone on with to its end.
pub proof fn law_sequential_can_end(
    paths: Seq<PathView>,
    sizes: Seq<u64>,
    start: StreamWorld,
    unwritable: Set<PathView>,
    outcomes: Seq<bool>,
) -> (all: Seq<bool>)
    requires
        paths.len() == sizes.len() <= usize::MAX,
        start.valid(),
        crate::engine_laws::sequential_run_true(paths, sizes, start, unwritable, outcomes),
    ensures
        outcomes.is_prefix_of(all),
        crate::engine_laws::sequential_run_true(paths, sizes, start, unwritable, all),
        crate::engine_laws::sequential_end(
            paths,
            sizes,
            crate::sequential::sequential_run(sizes, start, all).0,
        ) is Some,
    decreases stream_steps(sizes, 0) - outcomes.len(),
{
    let (state, world) = crate::sequential::sequential_run(sizes, start, outcomes);
    if sequential_is_over(sizes, state) {
        outcomes
    } else {
        crate::engine_laws::lemma_sequential_true(paths, sizes, start, unwritable, outcomes);
        if outcomes.len() >= stream_steps(sizes, 0) {
            law_sequential_ends(sizes, start, outcomes);
        }
        let worked = true_outcome(
            world.now,
            state.copy.step,
            unwritable.contains(paths[state.index as int]),
        );
        let more = outcomes.push(worked);
        assert(more.drop_last() =~= outcomes);
        law_sequential_can_end(paths, sizes, start, unwritable, more)
    }
}

/// A bound on how many steps reader and writers still have to make.
pub open spec fn parallel_steps_left(job: ParallelJob, world: ParallelWorld) -> int {
    let index = world.reader.index as int;
    let reading = if index >= job.sizes.len() {
        0
    } else {
        stream_steps(job.sizes, index + 1) + match world.reader.step {
            ReaderStep::Ask => 2 * job.sizes[index] + 8,
            ReaderStep::Wait => 2 * job.sizes[index] + 8,
            ReaderStep::Copy(copy) => crate::copy_laws::stream_steps_left(copy),
            ReaderStep::Read(_) => 3,
            ReaderStep::Broken => 0,
        }
    };
    reading + 2 * world.shared.state.queue.len() + world.shared.writing.len()
}

/// What can happen next that brings reader and writers nearer to their end.
pub open spec fn next_event(
    job: ParallelJob,
    unwritable: Set<PathView>,
    world: ParallelWorld,
) -> ParallelEvent {
    let index = world.reader.index as int;
    let finish = ParallelEvent::Finish(0, !unwritable.contains(world.shared.writing[0].path));
    let write = if world.shared.state.queue.len() > 0 {
        ParallelEvent::Take
    } else {
        finish
    };
    if index >= job.sizes.len() {
        write
    } else {
        match world.reader.step {
            ReaderStep::Copy(copy) => ParallelEvent::Copied(
                true_outcome(world.now, copy.step, unwritable.contains(job.paths[index])),
            ),
            ReaderStep::Read(n) => ParallelEvent::Read(
                world.now.pos + n <= world.now.stream.len(),
            ),
            _ => if world.shared.state.admission(job.sizes[index] as nat) is Wait {
                write
            } else {
                ParallelEvent::Ask
            },
        }
    }
}

/// What can happen next can happen, and leaves fewer steps.
proof fn lemma_next_event(
    job: ParallelJob,
    unwritable: Set<PathView>,
    events: Seq<ParallelEvent>,
)
    requires
        job.valid(),
        crate::parallel::parallel_run_possible(job, events),
        crate::engine_laws::parallel_end(job, crate::parallel::parallel_run(job, events)) is None,
    ensures
        ({
            let world = crate::parallel::parallel_run(job, events);
            let event = next_event(job, unwritable, world);
            &&& world.allows(job, event)
            &&& crate::engine_laws::is_true_event(job, unwritable, world, event)
            &&& 0 <= parallel_steps_left(job, world.after(job, event)) < parallel_steps_left(
                job,
                world,
            )
        }),
{
    crate::parallel::lemma_parallel_run(job, events);
    let world = crate::parallel::parallel_run(job, events);
    let index = world.reader.index as int;
    lemma_stream_steps(job.sizes, index + 1);
    lemma_stream_steps(job.sizes, index + 2);
    if index < job.sizes.len() {
        match world.reader.step {
            ReaderStep::Copy(copy) => {
                crate::copy_laws::law_stream_copy_ends(
                    copy,
                    true_outcome(world.now, copy.step, unwritable.contains(job.paths[index])),
                );
            },
            ReaderStep::Read(_) => {},
            _ => {
                if world.shared.state.queue.len() == 0 && world.shared.writing.len() == 0 {
                    assert(crate::queue::bytes_in(world.shared.state.queue) == 0);
                    assert(crate::queue::bytes_in(world.shared.writing) == 0);
                }
            },
        }
    }
}

/// Reader and writers never come to a standstill: a run in which nothing goes wrong but that the
/// stream ends or files are unwritable can, whatever has happened so far, be gone on with to its
/// end.
pub proof fn law_parallel_can_end(
    job: ParallelJob,
    unwritable: Set<PathView>,
    events: Seq<ParallelEvent>,
) -> (all: Seq<ParallelEvent>)
    requires
        job.valid(),
        crate::parallel::parallel_run_possible(job, events),
        crate::engine_laws::parallel_run_true(job, unwritable, events),
    ensures
        events.is_prefix_of(all),
        crate::parallel::parallel_run_possible(job, all),
        crate::engine_laws::parallel_run_true(job, unwritable, all),
        crate::engine_laws::parallel_end(job, crate::parallel::parallel_run(job, all)) is Some,
    decreases parallel_steps_left(job, crate::parallel::parallel_run(job, events)),
{
    let world = crate::parallel::parallel_run(job, events);
    if crate::engine_laws::parallel_end(job, world) is Some {
        events
    } else {
        lemma_next_event(job, unwritable, events);
        let more = events.push(next_event(job, unwritable, world));
        assert(more.drop_last() =~= events);
        law_parallel_can_end(job, unwritable, more)
    }
}

/// A bound on how many steps a worker still takes with what it is about.
pub open spec fn worker_steps(worker: WorkerStep) -> int {
    match worker {
        WorkerStep::Open => 2,
        WorkerStep::Claim => 1,
        WorkerStep::Copy(_, copy) => 1 + crate::copy_laws::file_steps_left(copy),
        WorkerStep::Stop => 0,
    }
}

/// Such a bound for all of `workers` together.
pub open spec fn workers_steps(workers: Seq<WorkerStep>) -> int
    decreases workers.len(),
{
    if workers.len() == 0 {
        0
    } else {
        workers_steps(workers.drop_last()) + worker_steps(workers.last())
    }
}

/// A bound on how many steps the entries from `from` on take that nobody has taken yet.
pub open spec fn file_steps(job: PoolJob, from: int) -> int
    decreases job.entries.len() - from,
{
    if from < 0 || from >= job.entries.len() {
        0
    } else {
        2 * job.entries[from].size + 4 + file_steps(job, from + 1)
    }
}

/// A bound on how many steps all the workers still take.
pub open spec fn pool_steps_left(job: PoolJob, world: PoolWorld) -> int {
    file_steps(job, world.pool.next_entry as int) + workers_steps(world.workers)
}

/// No fewer than no steps.
proof fn lemma_file_steps(job: PoolJob, from: int)
    ensures
        file_steps(job, from) >= 0,
    decreases job.entries.len() - from,
{
    if 0 <= from < job.entries.len() {
        lemma_file_steps(job, from + 1);
    }
}

/// What changes with a worker.
proof fn lemma_workers_steps(workers: Seq<WorkerStep>, k: int, worker: WorkerStep)
    requires
        0 <= k < workers.len(),
    ensures
        workers_steps(workers.update(k, worker)) == workers_steps(workers) - worker_steps(
            workers[k],
        ) + worker_steps(worker),
    decreases workers.len(),
{
    let next = workers.update(k, worker);
    if k == workers.len() - 1 {
        assert(next.drop_last() =~= workers.drop_last());
    } else {
        lemma_workers_steps(workers.drop_last(), k, worker);
        assert(next.drop_last() =~= workers.drop_last().update(k, worker));
    }
}

/// Workers have no fewer than no steps left.
proof fn lemma_workers_steps_left(workers: Seq<WorkerStep>)
    requires
        forall|k: int| 0 <= k < workers.len() ==> worker_steps(#[trigger] workers[k]) >= 0,
    ensures
        workers_steps(workers) >= 0,
    decreases workers.len(),
{
    if workers.len() > 0 {
        let front = workers.drop_last();
        assert forall|k: int| 0 <= k < front.len() implies worker_steps(#[trigger] front[k])
            >= 0 by {
            assert(front[k] == workers[k]);
        }
        lemma_workers_steps_left(front);
        assert(worker_steps(workers[workers.len() - 1]) >= 0);
    }
}

/// An event leaves the workers fewer steps.
proof fn lemma_pool_step_left(
    job: PoolJob,
    threads: nat,
    world: PoolWorld,
    k: int,
    event: WorkerEvent,
)
    requires
        job.valid(),
        crate::pool::pool_in_step(job, world, threads),
        world.allows(k, event),
    ensures
        pool_steps_left(job, world.after(job, k, event)) < pool_steps_left(job, world),
{
    let next = world.after(job, k, event);
    lemma_workers_steps(world.workers, k, next.workers[k]);
    assert(next.workers =~= world.workers.update(k, next.workers[k]));
    if let WorkerEvent::Copied(outcome) = event {
        assert(world.workers[k] is Copy);
        crate::copy_laws::law_file_copy_ends(world.workers[k]->Copy_1, outcome is Ok);
    }
}

/// At the start there are two steps for each worker besides those for the entries.
proof fn lemma_workers_begin(workers: Seq<WorkerStep>)
    requires
        forall|k: int| 0 <= k < workers.len() ==> (#[trigger] workers[k]) is Open,
    ensures
        workers_steps(workers) == 2 * workers.len(),
    decreases workers.len(),
{
    if workers.len() > 0 {
        let front = workers.drop_last();
        assert forall|k: int| 0 <= k < front.len() implies (#[trigger] front[k]) is Open by {
            assert(front[k] == workers[k]);
        }
        lemma_workers_begin(front);
        assert(workers[workers.len() - 1] is Open);
    }
}

/// Several workers come to an end: no more than so many steps are possible, whatever their order and
/// their outcomes.
pub proof fn law_pool_ends(job: PoolJob, threads: nat, events: Seq<(int, WorkerEvent)>)
    requires
        job.valid(),
        crate::pool::pool_run_possible(job, threads, events),
    ensures
        events.len() <= file_steps(job, 0) + 2 * threads,
{
    lemma_pool_steps(job, threads, events);
    crate::pool::lemma_pool_run(job, threads, events);
    let world = crate::pool::pool_run(job, threads, events);
    lemma_file_steps(job, world.pool.next_entry as int);
    assert forall|k: int| 0 <= k < world.workers.len() implies worker_steps(
        #[trigger] world.workers[k],
    ) >= 0 by {
        if let WorkerStep::Copy(_, copy) = world.workers[k] {
            crate::copy_laws::law_file_copy_ends(copy, false);
        }
    }
    lemma_workers_steps_left(world.workers);
}

/// The steps that the workers have made and those that they may still make are no more than there
/// are at the start.
proof fn lemma_pool_steps(job: PoolJob, threads: nat, events: Seq<(int, WorkerEvent)>)
    requires
        job.valid(),
        crate::pool::pool_run_possible(job, threads, events),
    ensures
        events.len() + pool_steps_left(job, crate::pool::pool_run(job, threads, events))
            <= file_steps(job, 0) + 2 * threads,
    decreases events.len(),
{
    if events.len() == 0 {
        lemma_workers_begin(crate::pool::pool_run(job, threads, events).workers);
    } else {
        let front = events.drop_last();
        lemma_pool_steps(job, threads, front);
        crate::pool::lemma_pool_run(job, threads, front);
        lemma_pool_step_left(
            job,
            threads,
            crate::pool::pool_run(job, threads, front),
            events.last().0,
            events.last().1,
        );
    }
}

/// What can happen next to the worker `k`.
pub open spec fn next_worker_event(
    job: PoolJob,
    unwritable: Set<PathView>,
    worker: WorkerStep,
    failure: IoFailure,
) -> WorkerEvent {
    match worker {
        WorkerStep::Open => WorkerEvent::Opened(Ok(())),
        WorkerStep::Copy(index, copy) => {
            let works = match copy.step {
                FileStep::Create => !unwritable.contains(job.entries[index as int].path),
                FileStep::Write(_) => !unwritable.contains(job.entries[index as int].path),
                FileStep::ReadAt(position, n) => position + n <= job.source.len(),
                FileStep::Probe(position) => position < job.source.len(),
                _ => true,
            };
            WorkerEvent::Copied(
                if works {
                    Ok(())
                } else {
                    Err(failure)
                },
            )
        },
        _ => WorkerEvent::Claim,
    }
}

/// A run of several workers in which nothing goes wrong but that the file ends or files are
/// unwritable can be gone on with to its end.
pub proof fn law_pool_can_end(
    job: PoolJob,
    unwritable: Set<PathView>,
    threads: nat,
    events: Seq<(int, WorkerEvent)>,
    failure: IoFailure,
) -> (all: Seq<(int, WorkerEvent)>)
    requires
        job.valid(),
        crate::pool::pool_run_possible(job, threads, events),
        crate::disk_laws::pool_run_true(job, unwritable, threads, events),
    ensures
        events.is_prefix_of(all),
        crate::pool::pool_run_possible(job, threads, all),
        crate::disk_laws::pool_run_true(job, unwritable, threads, all),
        crate::disk_laws::pool_end(crate::pool::pool_run(job, threads, all)) is Some,
    decreases file_steps(job, 0) + 2 * threads - events.len(),
{
    let world = crate::pool::pool_run(job, threads, events);
    if crate::disk_laws::pool_end(world) is Some {
        events
    } else {
        crate::pool::lemma_pool_run(job, threads, events);
        let k = choose|k: int|
            0 <= k < world.workers.len() && !((#[trigger] world.workers[k]) is Stop);
        let event = next_worker_event(job, unwritable, world.workers[k], failure);
        let more = events.push((k, event));
        assert(more.drop_last() =~= events);
        assert(world.copies[k].source == job.source);
        law_pool_ends(job, threads, more);
        law_pool_can_end(job, unwritable, threads, more, failure)
    }
}

} // verus!
