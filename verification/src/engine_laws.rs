//! The ways in which contents are written come to the same.

use vstd::prelude::*;

use crate::copy::StreamStep;
use crate::copy_laws::StreamWorld;
use crate::error::{ErrorView, FailureView};
use crate::parallel::{Fate, ParallelEvent, ParallelJob, ParallelWorld, ReaderStep};
use crate::path::PathView;
use crate::queue::Queued;
use crate::sequential::{SequentialWorld, SequentialWrite};

verus! {

/// Whether the contents of the entry at `i` do not all lie in the stream.
pub open spec fn is_cut(sizes: Seq<u64>, start: StreamWorld, i: int) -> bool {
    start.pos + crate::sequential::sum_first(sizes, i + 1) > start.stream.len()
}

/// Whether the entry at `k` is the first that is cut short.
pub open spec fn is_first_cut(sizes: Seq<u64>, start: StreamWorld, k: int) -> bool {
    &&& 0 <= k < sizes.len()
    &&& is_cut(sizes, start, k)
    &&& forall|j: int| 0 <= j < k ==> !#[trigger] is_cut(sizes, start, j)
}

/// How many of the first `n` of `paths` cannot be written.
pub open spec fn count_unwritable(paths: Seq<PathView>, unwritable: Set<PathView>, n: int) -> nat
    decreases n,
{
    if n <= 0 {
        0
    } else {
        count_unwritable(paths, unwritable, n - 1) + if unwritable.contains(paths[n - 1]) {
            1nat
        } else {
            0nat
        }
    }
}

/// The error, if any, that writing entries out of a stream comes to where the files at `unwritable`
/// cannot be written and nothing else goes wrong: about the first entry that is cut short, or else
/// about the files.
pub open spec fn stream_result(
    paths: Seq<PathView>,
    sizes: Seq<u64>,
    start: StreamWorld,
    unwritable: Set<PathView>,
) -> Option<ErrorView> {
    let failed = count_unwritable(paths, unwritable, sizes.len() as int);
    if exists|k: int| is_first_cut(sizes, start, k) {
        Some(
            ErrorView::entry(
                FailureView::end_of_file(),
                paths[choose|k: int| is_first_cut(sizes, start, k)],
            ),
        )
    } else if failed == 0 {
        None
    } else {
        Some(ErrorView::unwritten(failed))
    }
}

/// Whether a step of a copy has the outcome that it has where nothing goes wrong but that the stream
/// ends or the file is unwritable: then it fails to be created, written or flushed.
pub open spec fn is_true_outcome(
    now: StreamWorld,
    step: StreamStep,
    worked: bool,
    unwritable: bool,
) -> bool {
    match step {
        StreamStep::Read(n) => worked <==> now.pos + n <= now.stream.len(),
        StreamStep::Skip(n) => worked <==> now.pos + n <= now.stream.len(),
        StreamStep::Create(_) => !unwritable ==> worked,
        StreamStep::Write(_) => !unwritable ==> worked,
        StreamStep::Flush => worked <==> !unwritable,
        StreamStep::Done => true,
        StreamStep::Broken => true,
    }
}

/// Whether the steps of a writing of entries have such outcomes.
pub open spec fn sequential_run_true(
    paths: Seq<PathView>,
    sizes: Seq<u64>,
    start: StreamWorld,
    unwritable: Set<PathView>,
    outcomes: Seq<bool>,
) -> bool
    decreases outcomes.len(),
{
    outcomes.len() > 0 ==> {
        let (state, world) = crate::sequential::sequential_run(sizes, start, outcomes.drop_last());
        &&& sequential_run_true(paths, sizes, start, unwritable, outcomes.drop_last())
        &&& state.index < sizes.len() ==> is_true_outcome(
            world.now,
            state.copy.step,
            outcomes.last(),
            unwritable.contains(paths[state.index as int]),
        )
    }
}

/// Whether a writing of entries is over, and with which error if any.
pub open spec fn sequential_end(
    paths: Seq<PathView>,
    sizes: Seq<u64>,
    state: SequentialWrite,
) -> Option<Option<ErrorView>> {
    if state.index >= sizes.len() {
        Some(
            if state.failed_writes == 0 {
                None
            } else {
                Some(ErrorView::unwritten(state.failed_writes as nat))
            },
        )
    } else if state.copy.step is Broken {
        Some(Some(ErrorView::entry(FailureView::end_of_file(), paths[state.index as int])))
    } else {
        None
    }
}

/// The files that a writing of entries has written to their end, each with the path it is at.
pub open spec fn sequential_files(paths: Seq<PathView>, world: SequentialWorld) -> Set<Queued> {
    Set::new(
        |q: Queued|
            exists|i: int|
                0 <= i < world.files.len() && #[trigger] world.files[i] == Some(q.contents)
                    && paths[i] == q.path,
    )
}

/// The files that there are where each entry that can be written was.
pub open spec fn all_files(
    paths: Seq<PathView>,
    sizes: Seq<u64>,
    start: StreamWorld,
    unwritable: Set<PathView>,
) -> Set<Queued> {
    Set::new(
        |q: Queued|
            exists|i: int|
                0 <= i < sizes.len() && !unwritable.contains(#[trigger] paths[i]) && q.path
                    == paths[i] && q.contents == crate::sequential::contents_at(sizes, start, i),
    )
}

/// What holds of a writing of entries at any time.
pub open spec fn sequential_is_true(
    paths: Seq<PathView>,
    sizes: Seq<u64>,
    start: StreamWorld,
    unwritable: Set<PathView>,
    state: SequentialWrite,
    world: SequentialWorld,
) -> bool {
    &&& crate::sequential::sequential_in_step(sizes, start, state, world)
    &&& state.index < sizes.len() && state.copy.step is Broken ==> is_cut(
        sizes,
        start,
        state.index as int,
    )
    &&& state.index < sizes.len() && state.copy.write_failed ==> unwritable.contains(
        paths[state.index as int],
    )
    &&& forall|i: int|
        0 <= i < world.files.len() ==> ((#[trigger] world.files[i]) is None
            <==> unwritable.contains(paths[i]))
    &&& crate::sequential::missing(world.files) == count_unwritable(
        paths,
        unwritable,
        state.index as int,
    )
}

/// Steps with true outcomes are possible, and keep a writing of entries true.
pub proof fn lemma_sequential_true(
    paths: Seq<PathView>,
    sizes: Seq<u64>,
    start: StreamWorld,
    unwritable: Set<PathView>,
    outcomes: Seq<bool>,
)
    requires
        paths.len() == sizes.len() <= usize::MAX,
        start.valid(),
        sequential_run_true(paths, sizes, start, unwritable, outcomes),
    ensures
        crate::sequential::sequential_run_possible(sizes, start, outcomes),
        ({
            let (state, world) = crate::sequential::sequential_run(sizes, start, outcomes);
            sequential_is_true(paths, sizes, start, unwritable, state, world)
        }),
    decreases outcomes.len(),
{
    if outcomes.len() == 0 {
        crate::sequential::lemma_sequential_run(sizes, start, outcomes);
    } else {
        lemma_sequential_true(paths, sizes, start, unwritable, outcomes.drop_last());
        let (state, world) = crate::sequential::sequential_run(sizes, start, outcomes.drop_last());
        crate::sequential::lemma_sequential_run(sizes, start, outcomes);
        let (next, world_next) = crate::sequential::sequential_run(sizes, start, outcomes);
        if state.index < sizes.len() && state.copy.next(outcomes.last()).step is Done {
            assert(world_next.files.drop_last() =~= world.files);
            assert forall|i: int| 0 <= i < world_next.files.len() implies ((
            #[trigger] world_next.files[i]) is None <==> unwritable.contains(paths[i])) by {
                if i < world.files.len() {
                    assert(world_next.files[i] == world.files[i]);
                }
            }
        }
    }
}

/// Where the contents of the first entries lie in the stream, none of them is cut short.
pub proof fn lemma_none_cut(sizes: Seq<u64>, start: StreamWorld, n: int)
    requires
        0 <= n <= sizes.len(),
        start.pos + crate::sequential::sum_first(sizes, n) <= start.stream.len(),
    ensures
        forall|j: int| 0 <= j < n ==> !#[trigger] is_cut(sizes, start, j),
{
    assert forall|j: int| 0 <= j < n implies !#[trigger] is_cut(sizes, start, j) by {
        crate::sequential::lemma_sum_first(sizes, j + 1, n);
    }
}

/// There is only one first entry that is cut short.
proof fn lemma_first_cut_unique(sizes: Seq<u64>, start: StreamWorld, k: int)
    requires
        is_first_cut(sizes, start, k),
    ensures
        (choose|k: int| is_first_cut(sizes, start, k)) == k,
{
    let other = choose|k: int| is_first_cut(sizes, start, k);
    assert(is_first_cut(sizes, start, other));
    if other < k {
        assert(!is_cut(sizes, start, other));
    }
    if k < other {
        assert(!is_cut(sizes, start, k));
    }
}

/// Writing the entries of a stream one after the other, where nothing goes wrong but that the stream
/// ends or files are unwritable, comes to the result that is told by the stream and those files
/// alone; and if no entry is cut short, it has written to their end the files of the entries that can
/// be written, with their contents, and no others.
pub proof fn law_sequential_result(
    paths: Seq<PathView>,
    sizes: Seq<u64>,
    start: StreamWorld,
    unwritable: Set<PathView>,
    outcomes: Seq<bool>,
)
    requires
        paths.len() == sizes.len() <= usize::MAX,
        start.valid(),
        sequential_run_true(paths, sizes, start, unwritable, outcomes),
    ensures
        ({
            let (state, world) = crate::sequential::sequential_run(sizes, start, outcomes);
            sequential_end(paths, sizes, state) matches Some(result) ==> {
                &&& result == stream_result(paths, sizes, start, unwritable)
                &&& !(exists|k: int| is_first_cut(sizes, start, k)) ==> sequential_files(
                    paths,
                    world,
                ) == all_files(paths, sizes, start, unwritable)
            }
        }),
{
    lemma_sequential_true(paths, sizes, start, unwritable, outcomes);
    let (state, world) = crate::sequential::sequential_run(sizes, start, outcomes);
    let n = state.index as int;
    lemma_none_cut(sizes, start, n);
    if sequential_end(paths, sizes, state) is Some {
        if n < sizes.len() {
            assert(is_first_cut(sizes, start, n));
            lemma_first_cut_unique(sizes, start, n);
        } else {
            assert forall|k: int| !is_first_cut(sizes, start, k) by {
                if 0 <= k < sizes.len() {
                    assert(!is_cut(sizes, start, k));
                }
            }
            let left = sequential_files(paths, world);
            let all = all_files(paths, sizes, start, unwritable);
            assert forall|q: Queued| left.contains(q) <==> all.contains(q) by {
                if left.contains(q) {
                    let i = choose|i: int|
                        0 <= i < world.files.len() && #[trigger] world.files[i] == Some(q.contents)
                            && paths[i] == q.path;
                    assert(!unwritable.contains(paths[i]));
                }
                if all.contains(q) {
                    let i = choose|i: int|
                        0 <= i < sizes.len() && !unwritable.contains(#[trigger] paths[i]) && q.path
                            == paths[i] && q.contents == crate::sequential::contents_at(
                            sizes,
                            start,
                            i,
                        );
                    assert(world.files[i] is Some);
                    assert(world.files[i] == Some(q.contents));
                }
            }
            assert(left =~= all);
        }
    }
}

/// Whether the events while entries are read and written are those that there are where nothing
/// goes wrong but that the stream ends or files are unwritable.
pub open spec fn is_true_event(
    job: ParallelJob,
    unwritable: Set<PathView>,
    world: ParallelWorld,
    event: ParallelEvent,
) -> bool {
    match event {
        ParallelEvent::Copied(worked) => is_true_outcome(
            world.now,
            world.reader.step->Copy_0.step,
            worked,
            unwritable.contains(job.paths[world.reader.index as int]),
        ),
        ParallelEvent::Read(worked) => worked <==> world.now.pos + world.reader.step->Read_0
            <= world.now.stream.len(),
        ParallelEvent::Finish(i, written) => written <==> !unwritable.contains(
            world.shared.writing[i].path,
        ),
        _ => true,
    }
}

/// Whether all these events are of that kind.
pub open spec fn parallel_run_true(
    job: ParallelJob,
    unwritable: Set<PathView>,
    events: Seq<ParallelEvent>,
) -> bool
    decreases events.len(),
{
    events.len() > 0 ==> {
        &&& parallel_run_true(job, unwritable, events.drop_last())
        &&& is_true_event(
            job,
            unwritable,
            crate::parallel::parallel_run(job, events.drop_last()),
            events.last(),
        )
    }
}

/// Whether reading and writing is over, and with which error if any: when the stream has broken off,
/// or when every entry was read and the writers have nothing left to write.
pub open spec fn parallel_end(job: ParallelJob, world: ParallelWorld) -> Option<
    Option<ErrorView>,
> {
    let failed = world.reader.inline_failed_writes + world.shared.state.failed_writes;
    if world.reader.index >= job.sizes.len() {
        if world.shared.state.queue.len() == 0 && world.shared.writing.len() == 0 {
            Some(
                if failed == 0 {
                    None
                } else {
                    Some(ErrorView::unwritten(failed as nat))
                },
            )
        } else {
            None
        }
    } else if world.reader.step is Broken {
        Some(
            Some(
                ErrorView::entry(
                    FailureView::end_of_file(),
                    job.paths[world.reader.index as int],
                ),
            ),
        )
    } else {
        None
    }
}

/// The files that reader and writers have written to their end, each with the path it is at.
pub open spec fn parallel_files(job: ParallelJob, world: ParallelWorld) -> Set<Queued> {
    Set::new(
        |q: Queued|
            world.shared.written.contains(q) || exists|i: int|
                0 <= i < world.fates.len() && #[trigger] world.fates[i] == Fate::Copied(q.contents)
                    && job.paths[i] == q.path,
    )
}

/// How many of `items` go to a path that cannot be written.
spec fn unwritable_in(items: Seq<Queued>, unwritable: Set<PathView>) -> nat
    decreases items.len(),
{
    if items.len() == 0 {
        0
    } else {
        unwritable_in(items.drop_last(), unwritable) + if unwritable.contains(items.last().path) {
            1nat
        } else {
            0nat
        }
    }
}

/// Dropping an item anywhere takes it away from the count.
proof fn lemma_unwritable_without(items: Seq<Queued>, unwritable: Set<PathView>, i: int)
    requires
        0 <= i < items.len(),
    ensures
        unwritable_in(items, unwritable) == unwritable_in(items.remove(i), unwritable)
            + if unwritable.contains(items[i].path) {
            1nat
        } else {
            0nat
        },
    decreases items.len(),
{
    if i == items.len() - 1 {
        assert(items.remove(i) =~= items.drop_last());
    } else {
        lemma_unwritable_without(items.drop_last(), unwritable, i);
        assert(items.remove(i).drop_last() =~= items.drop_last().remove(i));
    }
}

/// What holds of reader and writers at any time.
spec fn parallel_is_true(job: ParallelJob, unwritable: Set<PathView>, world: ParallelWorld) -> bool {
    let index = world.reader.index as int;
    &&& crate::parallel::parallel_in_step(job, world)
    &&& world.reader.step is Broken ==> index < job.sizes.len() && is_cut(
        job.sizes,
        job.start,
        index,
    )
    &&& world.reader.step matches ReaderStep::Copy(copy) ==> (copy.write_failed
        ==> unwritable.contains(job.paths[index]))
    &&& forall|i: int|
        0 <= i < index ==> ((#[trigger] world.fates[i]) is GivenUp ==> unwritable.contains(
            job.paths[i],
        )) && (world.fates[i] is Copied ==> !unwritable.contains(job.paths[i]))
    &&& forall|k: int|
        0 <= k < world.shared.written.len() ==> !unwritable.contains(
            (#[trigger] world.shared.written[k]).path,
        )
    &&& unwritable_in(world.shared.taken, unwritable) == unwritable_in(
        world.shared.writing,
        unwritable,
    ) + world.shared.unwritten.len()
    &&& unwritable_in(job.items(index), unwritable) + crate::parallel::given_up(world.fates)
        == count_unwritable(job.paths, unwritable, index)
}

/// True events keep reader and writers true.
proof fn lemma_parallel_true(
    job: ParallelJob,
    unwritable: Set<PathView>,
    events: Seq<ParallelEvent>,
)
    requires
        job.valid(),
        crate::parallel::parallel_run_possible(job, events),
        parallel_run_true(job, unwritable, events),
    ensures
        parallel_is_true(job, unwritable, crate::parallel::parallel_run(job, events)),
    decreases events.len(),
{
    crate::parallel::lemma_parallel_run(job, events);
    if events.len() > 0 {
        lemma_parallel_true(job, unwritable, events.drop_last());
        crate::parallel::lemma_parallel_run(job, events.drop_last());
        let world = crate::parallel::parallel_run(job, events.drop_last());
        let next = crate::parallel::parallel_run(job, events);
        let index = world.reader.index as int;
        match events.last() {
            ParallelEvent::Ask => {},
            ParallelEvent::Copied(worked) => {
                let copy = world.reader.step->Copy_0;
                if copy.next(worked).step is Done {
                    assert(next.fates.drop_last() =~= world.fates);
                }
            },
            ParallelEvent::Read(worked) => {
                if worked {
                    assert(next.fates.drop_last() =~= world.fates);
                    assert(job.items(index + 1).drop_last() =~= job.items(index));
                }
            },
            ParallelEvent::Take => {
                if world.shared.state.queue.len() > 0 {
                    assert(next.shared.taken.drop_last() =~= world.shared.taken);
                    assert(next.shared.writing.drop_last() =~= world.shared.writing);
                }
            },
            ParallelEvent::Finish(i, written) => {
                lemma_unwritable_without(world.shared.writing, unwritable, i);
            },
        }
    }
}

/// Reading entries and writing them by several writers, where nothing goes wrong but that the stream
/// ends or files are unwritable, comes to the result that is told by the stream and those files
/// alone, whatever the limit of memory and the order of events; and if no entry is cut short, it
/// has written to their end the files of the entries that can be written, with their contents, and no
/// others.
pub proof fn law_parallel_result(
    job: ParallelJob,
    unwritable: Set<PathView>,
    events: Seq<ParallelEvent>,
)
    requires
        job.valid(),
        crate::parallel::parallel_run_possible(job, events),
        parallel_run_true(job, unwritable, events),
    ensures
        ({
            let world = crate::parallel::parallel_run(job, events);
            parallel_end(job, world) matches Some(result) ==> {
                &&& result == stream_result(job.paths, job.sizes, job.start, unwritable)
                &&& !(exists|k: int| is_first_cut(job.sizes, job.start, k)) ==> parallel_files(
                    job,
                    world,
                ) == all_files(job.paths, job.sizes, job.start, unwritable)
            }
        }),
{
    broadcast use vstd::seq_lib::group_to_multiset_ensures;

    lemma_parallel_true(job, unwritable, events);
    let world = crate::parallel::parallel_run(job, events);
    let n = world.reader.index as int;
    lemma_none_cut(job.sizes, job.start, n);
    if parallel_end(job, world) is Some {
        if n < job.sizes.len() {
            assert(is_first_cut(job.sizes, job.start, n));
            lemma_first_cut_unique(job.sizes, job.start, n);
        } else {
            assert forall|k: int| !is_first_cut(job.sizes, job.start, k) by {
                if 0 <= k < job.sizes.len() {
                    assert(!is_cut(job.sizes, job.start, k));
                }
            }
            let all_items = job.items(n);
            assert(world.shared.taken =~= all_items);
            assert(world.shared.writing =~= Seq::empty());
            assert(unwritable_in(world.shared.writing, unwritable) == 0);
            assert forall|q: Queued|
                all_items.contains(q) <==> world.shared.written.contains(q)
                    || world.shared.unwritten.contains(q) by {
                let total = world.shared.writing.to_multiset().add(
                    world.shared.written.to_multiset(),
                ).add(world.shared.unwritten.to_multiset());
                assert(all_items.to_multiset().count(q) == total.count(q));
                assert(all_items.contains(q) <==> all_items.to_multiset().count(q) > 0);
                assert(world.shared.written.contains(q)
                    <==> world.shared.written.to_multiset().count(q) > 0);
                assert(world.shared.unwritten.contains(q)
                    <==> world.shared.unwritten.to_multiset().count(q) > 0);
            }
            lemma_unwritten_are_unwritable(job, unwritable, events);
            let left = parallel_files(job, world);
            let all = all_files(job.paths, job.sizes, job.start, unwritable);
            assert forall|q: Queued| left.contains(q) <==> all.contains(q) by {
                if left.contains(q) {
                    if world.shared.written.contains(q) {
                        lemma_items_are_entries(job, n, q);
                        let i = choose|i: int| 0 <= i < n && q == #[trigger] job.item(i);
                        let k = world.shared.written.index_of(q);
                        assert(!unwritable.contains(world.shared.written[k].path));
                        assert(!unwritable.contains(job.paths[i]));
                    } else {
                        let i = choose|i: int|
                            0 <= i < world.fates.len() && #[trigger] world.fates[i] == Fate::Copied(
                                q.contents,
                            ) && job.paths[i] == q.path;
                        assert(crate::parallel::fate_is_right(job, i, world.fates[i]));
                        assert(!unwritable.contains(job.paths[i]));
                    }
                }
                if all.contains(q) {
                    let i = choose|i: int|
                        0 <= i < job.sizes.len() && !unwritable.contains(#[trigger] job.paths[i])
                            && q.path == job.paths[i] && q.contents
                            == crate::sequential::contents_at(job.sizes, job.start, i);
                    assert(q == job.item(i));
                    assert(crate::parallel::fate_is_right(job, i, world.fates[i]));
                    if job.sizes[i] <= job.limit {
                        lemma_entry_is_item(job, n, i);
                        if world.shared.unwritten.contains(q) {
                            let k = world.shared.unwritten.index_of(q);
                            assert(unwritable.contains(world.shared.unwritten[k].path));
                        }
                    } else {
                        assert(world.fates[i] == Fate::Copied(q.contents));
                    }
                }
            }
            assert(left =~= all);
        }
    }
}

/// What could not be written goes to paths that cannot be written.
proof fn lemma_unwritten_are_unwritable(
    job: ParallelJob,
    unwritable: Set<PathView>,
    events: Seq<ParallelEvent>,
)
    requires
        parallel_run_true(job, unwritable, events),
    ensures
        ({
            let world = crate::parallel::parallel_run(job, events);
            forall|k: int|
                0 <= k < world.shared.unwritten.len() ==> unwritable.contains(
                    (#[trigger] world.shared.unwritten[k]).path,
                )
        }),
    decreases events.len(),
{
    if events.len() > 0 {
        lemma_unwritten_are_unwritable(job, unwritable, events.drop_last());
    }
}

/// An item is an entry.
proof fn lemma_items_are_entries(job: ParallelJob, n: int, q: Queued)
    requires
        0 <= n <= job.sizes.len(),
        job.items(n).contains(q),
    ensures
        exists|i: int| 0 <= i < n && q == #[trigger] job.item(i),
    decreases n,
{
    if n > 0 {
        let k = job.items(n).index_of(q);
        if job.sizes[n - 1] <= job.limit && k == job.items(n - 1).len() {
            assert(q == job.item(n - 1));
        } else {
            assert(job.items(n - 1)[k] == q);
            lemma_items_are_entries(job, n - 1, q);
            let i = choose|i: int| 0 <= i < n - 1 && q == #[trigger] job.item(i);
            assert(0 <= i < n && q == job.item(i));
        }
    }
}

/// An entry that fits into memory is among those that do.
pub proof fn lemma_entry_is_item(job: ParallelJob, n: int, i: int)
    requires
        0 <= i < n <= job.sizes.len(),
        job.sizes[i] <= job.limit,
    ensures
        job.items(n).contains(job.item(i)),
    decreases n,
{
    if i == n - 1 {
        assert(job.items(n).last() == job.item(i));
    } else {
        lemma_entry_is_item(job, n - 1, i);
        let k = job.items(n - 1).index_of(job.item(i));
        assert(job.items(n)[k] == job.item(i));
    }
}

/// The two ways of writing the entries of a stream come to the same: where nothing goes wrong but
/// that the stream ends or files are unwritable, they end with the same error or with none, and if
/// no entry is cut short they have written the same files to their end.
pub proof fn law_engines_agree(
    job: ParallelJob,
    unwritable: Set<PathView>,
    outcomes: Seq<bool>,
    events: Seq<ParallelEvent>,
)
    requires
        job.valid(),
        sequential_run_true(job.paths, job.sizes, job.start, unwritable, outcomes),
        crate::parallel::parallel_run_possible(job, events),
        parallel_run_true(job, unwritable, events),
    ensures
        ({
            let (state, world) = crate::sequential::sequential_run(job.sizes, job.start, outcomes);
            let other = crate::parallel::parallel_run(job, events);
            sequential_end(job.paths, job.sizes, state) is Some && parallel_end(job, other) is Some
                ==> {
                &&& sequential_end(job.paths, job.sizes, state) == parallel_end(job, other)
                &&& !(exists|k: int| is_first_cut(job.sizes, job.start, k)) ==> sequential_files(
                    job.paths,
                    world,
                ) == parallel_files(job, other)
            }
        }),
{
    law_sequential_result(job.paths, job.sizes, job.start, unwritable, outcomes);
    law_parallel_result(job, unwritable, events);
}

} // verus!
