//! What is on the disk when an archive has been extracted.

use vstd::prelude::*;
use vstd::string::*;

use crate::archive_laws::{ArchiveHead, PackedFile};
use crate::conf::ConfigView;
use crate::copy::FileStep;
use crate::copy_laws::StreamWorld;
use crate::error::{ErrorView, FailureView};
use crate::header::HeaderView;
use crate::index::{EntryView, RawEntry};
use crate::parallel::{ParallelEvent, ParallelJob};
use crate::path::{PathView, Platform};
use crate::pool::{PoolJob, PoolWorld, WorkerEvent, WorkerStep};
use crate::queue::Queued;
use crate::reader::Parsed;

verus! {

/// Whether an event that happens to the worker `k` is one that there is where nothing goes wrong
/// but that the file ends or files are unwritable: then they fail to be created, or some of their
/// contents fail to be written, if only the last.
pub open spec fn is_true_worker_event(
    job: PoolJob,
    unwritable: Set<PathView>,
    world: PoolWorld,
    k: int,
    event: WorkerEvent,
) -> bool {
    match event {
        WorkerEvent::Opened(outcome) => outcome is Ok,
        WorkerEvent::Claim => true,
        WorkerEvent::Copied(outcome) => {
            let copy = world.workers[k]->Copy_1;
            let is_unwritable = unwritable.contains(
                job.entries[world.workers[k]->Copy_0 as int].path,
            );
            match copy.step {
                FileStep::Create => {
                    &&& !is_unwritable ==> outcome is Ok
                    &&& is_unwritable && copy.remaining == 0 ==> outcome is Err
                },
                FileStep::Write(n) => {
                    &&& !is_unwritable ==> outcome is Ok
                    &&& is_unwritable && copy.remaining == n ==> outcome is Err
                },
                FileStep::ReadAt(position, n) => outcome is Ok <==> position + n
                    <= job.source.len(),
                FileStep::Probe(position) => outcome is Ok <==> position < job.source.len(),
                FileStep::Done => true,
                FileStep::Broken => true,
            }
        },
    }
}

/// Whether all these events are of that kind.
pub open spec fn pool_run_true(
    job: PoolJob,
    unwritable: Set<PathView>,
    threads: nat,
    events: Seq<(int, WorkerEvent)>,
) -> bool
    decreases events.len(),
{
    events.len() > 0 ==> {
        &&& pool_run_true(job, unwritable, threads, events.drop_last())
        &&& is_true_worker_event(
            job,
            unwritable,
            crate::pool::pool_run(job, threads, events.drop_last()),
            events.last().0,
            events.last().1,
        )
    }
}

/// Whether the workers have all stopped, and with which error if any.
pub open spec fn pool_end(world: PoolWorld) -> Option<Option<ErrorView>> {
    if forall|k: int| 0 <= k < world.workers.len() ==> (#[trigger] world.workers[k]) is Stop {
        Some(
            match world.pool.read_error {
                Some(error) => Some(error),
                None => if world.pool.failed_writes == 0 {
                    None
                } else {
                    Some(ErrorView::unwritten(world.pool.failed_writes))
                },
            },
        )
    } else {
        None
    }
}

/// The files that the workers have written to their end, each with the path it is at.
pub open spec fn pool_files(job: PoolJob, world: PoolWorld) -> Set<Queued> {
    Set::new(
        |q: Queued|
            exists|i: int| #[trigger]
                world.files.dom().contains(i) && world.files[i] == q.contents
                    && job.entries[i].path == q.path,
    )
}

/// The paths that the entries go to.
pub open spec fn paths_of(entries: Seq<EntryView>) -> Seq<PathView> {
    entries.map_values(|e: EntryView| e.path)
}

/// Whether the contents of every entry lie within the file.
pub open spec fn all_within(job: PoolJob) -> bool {
    forall|i: int| 0 <= i < job.entries.len() ==> #[trigger] job.is_within(i)
}

/// What holds of the workers at any time.
spec fn pool_is_true(
    job: PoolJob,
    unwritable: Set<PathView>,
    threads: nat,
    world: PoolWorld,
) -> bool {
    &&& crate::pool::pool_in_step(job, world, threads)
    &&& forall|k: int|
        0 <= k < threads ==> (#[trigger] world.workers[k] matches WorkerStep::Copy(i, copy)
            ==> copy.write_failed ==> unwritable.contains(job.entries[i as int].path))
    &&& forall|i: int| #[trigger]
        world.files.dom().contains(i) ==> !unwritable.contains(job.entries[i].path)
    &&& forall|j: int|
        0 <= j < world.lost.len() ==> unwritable.contains(
            job.entries[#[trigger] world.lost[j]].path,
        )
    &&& all_within(job) ==> world.pool.read_error is None
}

/// True events keep the workers true.
proof fn lemma_pool_true(
    job: PoolJob,
    unwritable: Set<PathView>,
    threads: nat,
    events: Seq<(int, WorkerEvent)>,
)
    requires
        job.valid(),
        crate::pool::pool_run_possible(job, threads, events),
        pool_run_true(job, unwritable, threads, events),
    ensures
        pool_is_true(job, unwritable, threads, crate::pool::pool_run(job, threads, events)),
    decreases events.len(),
{
    crate::pool::lemma_pool_run(job, threads, events);
    if events.len() > 0 {
        lemma_pool_true(job, unwritable, threads, events.drop_last());
        let world = crate::pool::pool_run(job, threads, events.drop_last());
        let k = events.last().0;
        if let WorkerEvent::Copied(_) = events.last().1 {
            assert(world.workers[k] is Copy);
            if all_within(job) {
                assert(job.is_within(world.workers[k]->Copy_0 as int));
            }
        }
    }
}

/// As many numbers as there are unwritable paths, if they are the numbers of those.
proof fn lemma_lost_are_counted(
    lost: Seq<int>,
    paths: Seq<PathView>,
    unwritable: Set<PathView>,
    n: int,
)
    requires
        0 <= n <= paths.len(),
        lost.no_duplicates(),
        forall|i: int|
            #[trigger] lost.contains(i) <==> 0 <= i < n && unwritable.contains(paths[i]),
    ensures
        lost.len() == crate::engine_laws::count_unwritable(paths, unwritable, n),
    decreases n,
{
    if n > 0 {
        let i = n - 1;
        if unwritable.contains(paths[i]) {
            assert(lost.contains(i));
            let j = lost.index_of(i);
            let rest = lost.remove(j);
            assert forall|a: int, b: int|
                0 <= a < rest.len() && 0 <= b < rest.len() && a != b implies rest[a] != rest[b] by {
                let x = if a < j { a } else { a + 1 };
                let y = if b < j { b } else { b + 1 };
                assert(rest[a] == lost[x] && rest[b] == lost[y]);
            }
            assert forall|l: int| #[trigger]
                rest.contains(l) <==> 0 <= l < n - 1 && unwritable.contains(paths[l]) by {
                if rest.contains(l) {
                    let a = rest.index_of(l);
                    let x = if a < j { a } else { a + 1 };
                    assert(lost[x] == l);
                    assert(lost.contains(l));
                    assert(x != j);
                }
                if 0 <= l < n - 1 && unwritable.contains(paths[l]) {
                    assert(lost.contains(l));
                    let x = lost.index_of(l);
                    let a = if x < j { x } else { x - 1 };
                    assert(rest[a] == l);
                }
            }
            lemma_lost_are_counted(rest, paths, unwritable, n - 1);
        } else {
            lemma_lost_are_counted(lost, paths, unwritable, n - 1);
        }
    } else if lost.len() > 0 {
        assert(lost.contains(lost[0]));
    }
}

/// Several workers, where nothing goes wrong but that the file ends or files are unwritable, end
/// with an error about reading just if the contents of some entry do not lie within the file. Else
/// they end with an error just if there are files that are unwritable, which tells how many; and
/// they have written to their end the files of the entries that can be written, with their contents,
/// and no others.
pub proof fn law_pool_result(
    job: PoolJob,
    unwritable: Set<PathView>,
    threads: nat,
    events: Seq<(int, WorkerEvent)>,
)
    requires
        job.valid(),
        threads > 0,
        crate::pool::pool_run_possible(job, threads, events),
        pool_run_true(job, unwritable, threads, events),
        pool_end(crate::pool::pool_run(job, threads, events)) is Some,
    ensures
        ({
            let world = crate::pool::pool_run(job, threads, events);
            let failed = crate::engine_laws::count_unwritable(
                paths_of(job.entries),
                unwritable,
                job.entries.len() as int,
            );
            &&& world.pool.read_error is None <==> all_within(job)
            &&& all_within(job) ==> {
                &&& pool_end(world)->0 == if failed == 0 {
                    None
                } else {
                    Some(ErrorView::unwritten(failed))
                }
                &&& forall|q: Queued| #[trigger]
                    pool_files(job, world).contains(q) <==> exists|i: int|
                        0 <= i < job.entries.len() && (#[trigger] job.entries[i]).path == q.path
                            && !unwritable.contains(q.path) && job.contents(i) == q.contents
            }
        }),
{
    lemma_pool_true(job, unwritable, threads, events);
    let world = crate::pool::pool_run(job, threads, events);
    let paths = paths_of(job.entries);
    let n = job.entries.len() as int;
    assert(world.workers[0] is Stop);
    if world.pool.read_error is None {
        crate::pool::law_pool_write_complete(job, threads, events);
        crate::pool::law_pool_write(job, threads, events);
        assert forall|i: int| #[trigger]
            world.lost.contains(i) <==> 0 <= i < n && unwritable.contains(paths[i]) by {
            if world.lost.contains(i) {
                assert(world.is_done(i));
                let j = world.lost.index_of(i);
                assert(unwritable.contains(job.entries[world.lost[j]].path));
            }
            if 0 <= i < n && unwritable.contains(paths[i]) {
                assert(world.is_done(i));
                assert(!world.files.dom().contains(i));
            }
        }
        lemma_lost_are_counted(world.lost, paths, unwritable, n);
        assert forall|q: Queued| #[trigger] pool_files(job, world).contains(q) <==> exists|i: int|
            0 <= i < job.entries.len() && (#[trigger] job.entries[i]).path == q.path
                && !unwritable.contains(q.path) && job.contents(i) == q.contents by {
            if pool_files(job, world).contains(q) {
                let i = choose|i: int| #[trigger]
                    world.files.dom().contains(i) && world.files[i] == q.contents
                        && job.entries[i].path == q.path;
                assert(job.entries[i].path == q.path && job.contents(i) == q.contents);
            }
            if exists|i: int|
                0 <= i < job.entries.len() && (#[trigger] job.entries[i]).path == q.path
                    && !unwritable.contains(q.path) && job.contents(i) == q.contents {
                let i = choose|i: int|
                    0 <= i < job.entries.len() && (#[trigger] job.entries[i]).path == q.path
                        && !unwritable.contains(q.path) && job.contents(i) == q.contents;
                assert(world.is_done(i));
                assert(!unwritable.contains(paths[i]));
                assert(world.files.dom().contains(i));
            }
        }
    }
}

/// How many bytes the contents of each of the listed entries are.
pub open spec fn raw_sizes(raw: Seq<RawEntry>) -> Seq<u64> {
    raw.map_values(|e: RawEntry| e.size as u64)
}

/// The paths that the listed entries go to.
pub open spec fn placed_paths(out: PathView, raw: Seq<RawEntry>) -> Seq<PathView> {
    paths_of(crate::index::placed(out, raw))
}

/// What there is to write of a stream that was read up to `start`.
pub open spec fn stream_job(
    data: Seq<u8>,
    start: int,
    raw: Seq<RawEntry>,
    out: PathView,
    limit: nat,
) -> ParallelJob {
    ParallelJob {
        paths: placed_paths(out, raw),
        sizes: raw_sizes(raw),
        limit,
        start: StreamWorld { stream: data, pos: start, held: Seq::empty(), file: Seq::empty() },
    }
}

/// What there is to write of a file whose contents start at `start`.
pub open spec fn file_job(
    data: Seq<u8>,
    start: int,
    raw: Seq<RawEntry>,
    out: PathView,
    gma_path: PathView,
) -> PoolJob {
    PoolJob {
        entries: crate::index::placed(out, raw).map_values(
            |e: EntryView| crate::index::shifted(e, start as nat),
        ),
        gma_path,
        source: data,
    }
}

/// The sizes that an index tells are 64-bit numbers, also together.
proof fn lemma_index_sizes(data: Seq<u8>, pos: int, offset: nat)
    requires
        0 <= pos,
        offset <= u64::MAX,
        crate::index::index_from(data, pos, offset) is Done,
    ensures
        ({
            let raw = crate::index::index_from(data, pos, offset)->Done_0;
            &&& offset + crate::index::total(raw) <= u64::MAX
            &&& raw.len() + pos <= data.len()
            &&& forall|i: int| 0 <= i < raw.len() ==> (#[trigger] raw[i]).size <= u64::MAX
        }),
    decreases data.len() - pos,
{
    if crate::reader::le_value(data.subrange(pos, pos + 4)) != 0 {
        crate::reader::lemma_nul_from(data, pos + 4);
        let nul = crate::reader::nul_from(data, pos + 4)->0;
        let size = crate::reader::le_value(data.subrange(nul + 1, nul + 9));
        lemma_index_sizes(data, nul + 13, offset + size);
        let raw = crate::index::index_from(data, pos, offset)->Done_0;
        let rest = crate::index::index_from(data, nul + 13, offset + size)->Done_0;
        assert(raw.drop_first() =~= rest);
        crate::archive_laws::lemma_total_from_front(raw);
        assert forall|i: int| 0 <= i < raw.len() implies (#[trigger] raw[i]).size <= u64::MAX by {
            if i > 0 {
                assert(raw[i] == rest[i - 1]);
            }
        }
    }
}

/// Where contents start is told by the sizes of those before.
proof fn lemma_raw_sum(raw: Seq<RawEntry>, i: int)
    requires
        0 <= i <= raw.len(),
        forall|k: int| 0 <= k < raw.len() ==> (#[trigger] raw[k]).size <= u64::MAX,
    ensures
        crate::sequential::sum_first(raw_sizes(raw), i) == crate::index::total(raw.take(i)),
    decreases i,
{
    if i > 0 {
        lemma_raw_sum(raw, i - 1);
        assert(raw.take(i).drop_last() =~= raw.take(i - 1));
        assert(raw[i - 1].size <= u64::MAX);
    } else {
        assert(raw.take(0) =~= Seq::empty());
    }
}

/// The path that `parts` lead to from the folder `out`.
pub open spec fn below(out: PathView, parts: Seq<Seq<u8>>) -> PathView {
    PathView { parts: out.parts + parts, ..out }
}

/// The files of `files` that lie below the folder `from`, where they lie in the same way below the
/// folder `to` instead.
pub open spec fn moved(files: Set<Queued>, from: PathView, to: PathView) -> Set<Queued> {
    Set::new(
        |q: Queued|
            {
                let parts = q.path.parts.skip(to.parts.len() as int);
                &&& q.path == below(to, parts)
                &&& files.contains(Queued { path: below(from, parts), contents: q.contents })
            },
    )
}

/// An entry goes to the same place whatever the output folder is.
proof fn lemma_places_move_along(
    out1: PathView,
    out2: PathView,
    raw: Seq<RawEntry>,
    i: int,
) -> (parts: Seq<Seq<u8>>)
    requires
        out1.platform == out2.platform,
        0 <= i < raw.len(),
    ensures
        crate::index::placed(out1, raw)[i].path == below(out1, parts),
        crate::index::placed(out2, raw)[i].path == below(out2, parts),
{
    crate::place_laws::lemma_placed_at(out1, raw, i);
    crate::place_laws::lemma_placed_at(out2, raw, i);
    let a = crate::index::placed(out1, raw)[i].path;
    let b = crate::index::placed(out2, raw)[i].path;
    let parts = a.parts.skip(out1.parts.len() as int);
    assert(a.parts =~= out1.parts + parts);
    assert(b.parts =~= out2.parts + parts);
    parts
}

/// The contents of every entry lie within the file just if they do all together.
proof fn lemma_within(
    data: Seq<u8>,
    start: int,
    raw: Seq<RawEntry>,
    out: PathView,
    gma_path: PathView,
    n: int,
)
    requires
        0 <= start <= data.len(),
        0 <= n <= raw.len(),
        forall|k: int| 0 <= k < raw.len() ==> (#[trigger] raw[k]).size <= u64::MAX,
    ensures
        (forall|i: int|
            0 <= i < n ==> #[trigger] file_job(data, start, raw, out, gma_path).is_within(i))
            <==> start + crate::sequential::sum_first(raw_sizes(raw), n) <= data.len(),
    decreases n,
{
    let file = file_job(data, start, raw, out, gma_path);
    if n > 0 {
        lemma_within(data, start, raw, out, gma_path, n - 1);
        crate::place_laws::lemma_placed_at(out, raw, n - 1);
        lemma_raw_sum(raw, n - 1);
        assert(raw[n - 1].size <= u64::MAX);
        assert(file.entries[n - 1].size == raw[n - 1].size);
        assert(file.entries[n - 1].offset == start + crate::index::total(raw.take(n - 1)));
        if forall|i: int| 0 <= i < n ==> #[trigger] file.is_within(i) {
            assert(file.is_within(n - 1));
        }
    }
}

/// Some entry is the first that is cut short if the contents do not all lie in the stream.
proof fn lemma_first_cut_exists(sizes: Seq<u64>, start: StreamWorld, n: int)
    requires
        0 <= n <= sizes.len(),
        start.valid(),
        start.pos + crate::sequential::sum_first(sizes, n) > start.stream.len(),
    ensures
        exists|k: int| crate::engine_laws::is_first_cut(sizes, start, k),
    decreases n,
{
    if n > 0 {
        if start.pos + crate::sequential::sum_first(sizes, n - 1) > start.stream.len() {
            lemma_first_cut_exists(sizes, start, n - 1);
        } else {
            crate::engine_laws::lemma_none_cut(sizes, start, n - 1);
            assert(crate::engine_laws::is_first_cut(sizes, start, n - 1));
        }
    }
}

/// The contents do not all lie in the stream just if some entry is the first that is cut short.
proof fn lemma_cut_or_not(sizes: Seq<u64>, start: StreamWorld)
    requires
        start.valid(),
    ensures
        (exists|k: int| crate::engine_laws::is_first_cut(sizes, start, k)) <==> start.pos
            + crate::sequential::sum_first(sizes, sizes.len() as int) > start.stream.len(),
{
    let n = sizes.len() as int;
    if start.pos + crate::sequential::sum_first(sizes, n) > start.stream.len() {
        lemma_first_cut_exists(sizes, start, n);
    } else {
        crate::engine_laws::lemma_none_cut(sizes, start, n);
        assert forall|k: int| !crate::engine_laws::is_first_cut(sizes, start, k) by {
            if 0 <= k < n {
                assert(!crate::engine_laws::is_cut(sizes, start, k));
            }
        }
    }
}

/// Paths that are unwritable alike are counted alike.
proof fn lemma_counted_alike(
    paths1: Seq<PathView>,
    unwritable1: Set<PathView>,
    paths2: Seq<PathView>,
    unwritable2: Set<PathView>,
    n: int,
)
    requires
        0 <= n <= paths1.len() == paths2.len(),
        are_alike(paths1, unwritable1, paths2, unwritable2),
    ensures
        crate::engine_laws::count_unwritable(paths1, unwritable1, n)
            == crate::engine_laws::count_unwritable(paths2, unwritable2, n),
    decreases n,
{
    if n > 0 {
        lemma_counted_alike(paths1, unwritable1, paths2, unwritable2, n - 1);
        assert(unwritable1.contains(paths1[n - 1]) == unwritable2.contains(paths2[n - 1]));
    }
}

/// Whether the same of these paths, by their numbers, are unwritable.
pub open spec fn are_alike(
    paths1: Seq<PathView>,
    unwritable1: Set<PathView>,
    paths2: Seq<PathView>,
    unwritable2: Set<PathView>,
) -> bool {
    &&& paths1.len() == paths2.len()
    &&& forall|i: int|
        0 <= i < paths1.len() ==> #[trigger] unwritable1.contains(paths1[i])
            == unwritable2.contains(paths2[i])
}

/// The contents of an entry are the same in the file and in the stream.
proof fn lemma_same_contents(
    data: Seq<u8>,
    start: int,
    raw: Seq<RawEntry>,
    out: PathView,
    gma_path: PathView,
    stream_out: PathView,
    limit: nat,
    i: int,
)
    requires
        0 <= start <= data.len(),
        0 <= i < raw.len(),
        forall|k: int| 0 <= k < raw.len() ==> (#[trigger] raw[k]).size <= u64::MAX,
        start + crate::sequential::sum_first(raw_sizes(raw), raw.len() as int) <= data.len(),
    ensures
        file_job(data, start, raw, out, gma_path).contents(i)
            == crate::sequential::contents_at(
            stream_job(data, start, raw, stream_out, limit).sizes,
            stream_job(data, start, raw, stream_out, limit).start,
            i,
        ),
{
    crate::place_laws::lemma_placed_at(out, raw, i);
    lemma_raw_sum(raw, i);
    assert(raw[i].size <= u64::MAX);
    crate::sequential::lemma_sum_first(raw_sizes(raw), i + 1, raw.len() as int);
    let file = file_job(data, start, raw, out, gma_path);
    let stream = stream_job(data, start, raw, stream_out, limit);
    assert(file.contents(i) =~= crate::sequential::contents_at(stream.sizes, stream.start, i));
}

/// What the workers write of a file is what is to be written of the stream, moved.
proof fn lemma_files_are_moved(
    data: Seq<u8>,
    start: int,
    raw: Seq<RawEntry>,
    file_out: PathView,
    gma_path: PathView,
    unwritable: Set<PathView>,
    stream_out: PathView,
    limit: nat,
    stream_unwritable: Set<PathView>,
    left: Set<Queued>,
)
    requires
        0 <= start <= data.len(),
        file_out.platform == stream_out.platform,
        forall|k: int| 0 <= k < raw.len() ==> (#[trigger] raw[k]).size <= u64::MAX,
        start + crate::sequential::sum_first(raw_sizes(raw), raw.len() as int) <= data.len(),
        are_alike(
            placed_paths(file_out, raw),
            unwritable,
            placed_paths(stream_out, raw),
            stream_unwritable,
        ),
        ({
            let file = file_job(data, start, raw, file_out, gma_path);
            forall|q: Queued| #[trigger]
                left.contains(q) <==> exists|i: int|
                    0 <= i < file.entries.len() && (#[trigger] file.entries[i]).path == q.path
                        && !unwritable.contains(q.path) && file.contents(i) == q.contents
        }),
    ensures
        ({
            let stream = stream_job(data, start, raw, stream_out, limit);
            left == moved(
                crate::engine_laws::all_files(
                    stream.paths,
                    stream.sizes,
                    stream.start,
                    stream_unwritable,
                ),
                stream_out,
                file_out,
            )
        }),
{
    let file = file_job(data, start, raw, file_out, gma_path);
    let stream = stream_job(data, start, raw, stream_out, limit);
    let all = crate::engine_laws::all_files(
        stream.paths,
        stream.sizes,
        stream.start,
        stream_unwritable,
    );
    let paths = placed_paths(file_out, raw);
    crate::index::lemma_placed_total(file_out, raw);
    crate::index::lemma_placed_total(stream_out, raw);
    assert forall|q: Queued| left.contains(q) <==> moved(all, stream_out, file_out).contains(q) by {
        let tail = q.path.parts.skip(file_out.parts.len() as int);
        let other = Queued { path: below(stream_out, tail), contents: q.contents };
        if left.contains(q) {
            let i = choose|i: int|
                0 <= i < file.entries.len() && (#[trigger] file.entries[i]).path == q.path
                    && !unwritable.contains(q.path) && file.contents(i) == q.contents;
            let parts = lemma_places_move_along(file_out, stream_out, raw, i);
            lemma_same_contents(data, start, raw, file_out, gma_path, stream_out, limit, i);
            assert(tail =~= parts);
            assert(stream.paths[i] == other.path);
            assert(!unwritable.contains(paths[i]));
            assert(all.contains(other));
        }
        if moved(all, stream_out, file_out).contains(q) {
            assert(all.contains(other));
            let i = choose|i: int|
                0 <= i < stream.sizes.len() && !stream_unwritable.contains(
                    #[trigger] stream.paths[i],
                ) && other.path == stream.paths[i] && other.contents
                    == crate::sequential::contents_at(stream.sizes, stream.start, i);
            let parts = lemma_places_move_along(file_out, stream_out, raw, i);
            lemma_same_contents(data, start, raw, file_out, gma_path, stream_out, limit, i);
            let n = stream_out.parts.len() as int;
            assert(below(stream_out, tail).parts.skip(n) =~= tail);
            assert(below(stream_out, parts).parts.skip(n) =~= parts);
            assert(file.entries[i].path == q.path);
            assert(!unwritable.contains(paths[i]));
        }
    }
    assert(left =~= moved(all, stream_out, file_out));
}

/// What is wrong with the head or the index of an archive with these bytes.
pub open spec fn head_error(data: Seq<u8>) -> Option<ErrorView> {
    let end = FailureView::end_of_file();
    match crate::header::header(data, 0) {
        Parsed::Ended(context) => Some(ErrorView::reading(end, context)),
        Parsed::Fault(message) => Some(ErrorView::gma(message)),
        Parsed::Done(_, next) => match crate::index::index_from(data, next, 0) {
            Parsed::Ended(context) => Some(ErrorView::reading(end, context)),
            Parsed::Fault(message) => Some(ErrorView::gma(message)),
            Parsed::Done(_, _) => None,
        },
    }
}

/// The entries that an archive with these bytes lists.
pub open spec fn listed(data: Seq<u8>) -> Seq<RawEntry> {
    crate::index::index_from(data, crate::header::header(data, 0)->Done_1, 0)->Done_0
}

/// Where the contents of the entries start in an archive with these bytes.
pub open spec fn contents_start(data: Seq<u8>) -> int {
    crate::index::index_from(data, crate::header::header(data, 0)->Done_1, 0)->Done_1
}

/// What there is to write of the stream `data` below the folder `out`.
pub open spec fn stream_of(data: Seq<u8>, out: PathView, limit: nat) -> ParallelJob {
    stream_job(data, contents_start(data), listed(data), out, limit)
}

/// What there is to write of the file `data` below the folder `out`.
pub open spec fn file_of(data: Seq<u8>, out: PathView, gma_path: PathView) -> PoolJob {
    file_job(data, contents_start(data), listed(data), out, gma_path)
}

/// How extracting a stream ends, where writing the entries ends with `end`: with what is wrong with
/// head or index, and else as writing the entries does.
pub open spec fn stream_end(data: Seq<u8>, end: Option<Option<ErrorView>>) -> Option<
    Option<ErrorView>,
> {
    if head_error(data) is Some {
        Some(head_error(data))
    } else {
        end
    }
}

/// How extracting a file ends, where the workers end with `end`: as with a stream, but also where
/// the contents of an entry would start behind the last 64-bit position.
pub open spec fn file_end(
    data: Seq<u8>,
    out: PathView,
    end: Option<Option<ErrorView>>,
) -> Option<Option<ErrorView>> {
    if head_error(data) is Some {
        Some(head_error(data))
    } else if crate::extract::is_too_far(
        crate::index::placed(out, listed(data)),
        contents_start(data) as nat,
    ) {
        Some(Some(ErrorView::gma("GMA file index is too large"@)))
    } else {
        end
    }
}

/// Extracting any bytes from a file and from a stream comes to the same, where nothing goes wrong
/// but that the archive is none, or ends, or files are unwritable, the same ones: the one succeeds
/// just if the other does, in whichever way the entries of the stream are written. If the contents
/// of no entry are cut short, they end with the same error or with none; and then, if there is an
/// index, they have written the same files to their end, at the same places below their output
/// folders.
pub proof fn law_file_and_stream_agree(
    data: Seq<u8>,
    file_out: PathView,
    gma_path: PathView,
    file_unwritable: Set<PathView>,
    threads: nat,
    work: Seq<(int, WorkerEvent)>,
    stream_out: PathView,
    limit: nat,
    stream_unwritable: Set<PathView>,
    outcomes: Seq<bool>,
    events: Seq<ParallelEvent>,
)
    requires
        data.len() <= u64::MAX,
        file_out.platform == stream_out.platform,
        threads > 0,
        head_error(data) is None ==> {
            let file = file_of(data, file_out, gma_path);
            let stream = stream_of(data, stream_out, limit);
            &&& listed(data).len() <= usize::MAX
            &&& are_alike(
                placed_paths(file_out, listed(data)),
                file_unwritable,
                placed_paths(stream_out, listed(data)),
                stream_unwritable,
            )
            &&& crate::pool::pool_run_possible(file, threads, work)
            &&& pool_run_true(file, file_unwritable, threads, work)
            &&& crate::engine_laws::sequential_run_true(
                stream.paths,
                stream.sizes,
                stream.start,
                stream_unwritable,
                outcomes,
            )
            &&& crate::parallel::parallel_run_possible(stream, events)
            &&& crate::engine_laws::parallel_run_true(stream, stream_unwritable, events)
        },
    ensures
        ({
            let file = file_of(data, file_out, gma_path);
            let stream = stream_of(data, stream_out, limit);
            let pool = crate::pool::pool_run(file, threads, work);
            let (one, one_world) = crate::sequential::sequential_run(
                stream.sizes,
                stream.start,
                outcomes,
            );
            let many = crate::parallel::parallel_run(stream, events);
            let is_cut = head_error(data) is None && exists|k: int|
                crate::engine_laws::is_first_cut(stream.sizes, stream.start, k);
            let end = file_end(data, file_out, pool_end(pool));
            let one_end = stream_end(
                data,
                crate::engine_laws::sequential_end(stream.paths, stream.sizes, one),
            );
            let many_end = stream_end(data, crate::engine_laws::parallel_end(stream, many));
            &&& end is Some && one_end is Some ==> {
                &&& end->0 is None <==> one_end->0 is None
                &&& !is_cut ==> end == one_end
                &&& !is_cut && head_error(data) is None ==> pool_files(file, pool) == moved(
                    crate::engine_laws::sequential_files(stream.paths, one_world),
                    stream_out,
                    file_out,
                )
            }
            &&& end is Some && many_end is Some ==> {
                &&& end->0 is None <==> many_end->0 is None
                &&& !is_cut ==> end == many_end
                &&& !is_cut && head_error(data) is None ==> pool_files(file, pool) == moved(
                    crate::engine_laws::parallel_files(stream, many),
                    stream_out,
                    file_out,
                )
            }
        }),
{
    if head_error(data) is None {
        lemma_file_and_stream_agree(
            data,
            file_out,
            gma_path,
            file_unwritable,
            threads,
            work,
            stream_out,
            limit,
            stream_unwritable,
            outcomes,
            events,
        );
    }
}

/// The same, where head and index can be read.
proof fn lemma_file_and_stream_agree(
    data: Seq<u8>,
    file_out: PathView,
    gma_path: PathView,
    file_unwritable: Set<PathView>,
    threads: nat,
    work: Seq<(int, WorkerEvent)>,
    stream_out: PathView,
    limit: nat,
    stream_unwritable: Set<PathView>,
    outcomes: Seq<bool>,
    events: Seq<ParallelEvent>,
)
    requires
        data.len() <= u64::MAX,
        listed(data).len() <= usize::MAX,
        file_out.platform == stream_out.platform,
        threads > 0,
        head_error(data) is None,
        are_alike(
            placed_paths(file_out, listed(data)),
            file_unwritable,
            placed_paths(stream_out, listed(data)),
            stream_unwritable,
        ),
        crate::pool::pool_run_possible(file_of(data, file_out, gma_path), threads, work),
        pool_run_true(file_of(data, file_out, gma_path), file_unwritable, threads, work),
        ({
            let stream = stream_of(data, stream_out, limit);
            &&& crate::engine_laws::sequential_run_true(
                stream.paths,
                stream.sizes,
                stream.start,
                stream_unwritable,
                outcomes,
            )
            &&& crate::parallel::parallel_run_possible(stream, events)
            &&& crate::engine_laws::parallel_run_true(stream, stream_unwritable, events)
        }),
    ensures
        ({
            let file = file_of(data, file_out, gma_path);
            let stream = stream_of(data, stream_out, limit);
            let pool = crate::pool::pool_run(file, threads, work);
            let (one, one_world) = crate::sequential::sequential_run(
                stream.sizes,
                stream.start,
                outcomes,
            );
            let many = crate::parallel::parallel_run(stream, events);
            let is_cut = exists|k: int|
                crate::engine_laws::is_first_cut(stream.sizes, stream.start, k);
            let end = file_end(data, file_out, pool_end(pool));
            let one_end = crate::engine_laws::sequential_end(stream.paths, stream.sizes, one);
            let many_end = crate::engine_laws::parallel_end(stream, many);
            &&& end is Some && one_end is Some ==> {
                &&& end->0 is None <==> one_end->0 is None
                &&& !is_cut ==> end == one_end && pool_files(file, pool) == moved(
                    crate::engine_laws::sequential_files(stream.paths, one_world),
                    stream_out,
                    file_out,
                )
            }
            &&& end is Some && many_end is Some ==> {
                &&& end->0 is None <==> many_end->0 is None
                &&& !is_cut ==> end == many_end && pool_files(file, pool) == moved(
                    crate::engine_laws::parallel_files(stream, many),
                    stream_out,
                    file_out,
                )
            }
        }),
{
    let raw = listed(data);
    let start = contents_start(data);
    let file = file_of(data, file_out, gma_path);
    let stream = stream_of(data, stream_out, limit);
    let pool = crate::pool::pool_run(file, threads, work);
    let n = raw.len() as int;
    let head_end = crate::header::header(data, 0)->Done_1;
    crate::format_laws::law_header_is_stable(data, Seq::empty(), 0);
    crate::format_laws::law_index_is_stable(data, Seq::empty(), head_end, 0);
    lemma_index_sizes(data, head_end, 0);
    crate::index::lemma_placed_total(file_out, raw);
    crate::index::lemma_placed_total(stream_out, raw);
    crate::engine_laws::law_sequential_result(
        stream.paths,
        stream.sizes,
        stream.start,
        stream_unwritable,
        outcomes,
    );
    crate::engine_laws::law_parallel_result(stream, stream_unwritable, events);
    lemma_cut_or_not(stream.sizes, stream.start);
    lemma_within(data, start, raw, file_out, gma_path, n);
    let paths = placed_paths(file_out, raw);
    assert(paths_of(file.entries) =~= paths);
    lemma_counted_alike(paths, file_unwritable, stream.paths, stream_unwritable, n);
    if crate::extract::is_too_far(crate::index::placed(file_out, raw), start as nat) {
        let i = choose|i: int|
            0 <= i < n && (#[trigger] crate::index::placed(file_out, raw)[i]).offset + start
                > u64::MAX;
        crate::place_laws::lemma_placed_at(file_out, raw, i);
        lemma_raw_sum(raw, i);
        crate::sequential::lemma_sum_first(raw_sizes(raw), i, n);
    } else if pool_end(pool) is Some {
        assert forall|i: int| 0 <= i < file.entries.len() implies (
        #[trigger] file.entries[i]).offset <= u64::MAX && file.entries[i].size <= u64::MAX by {
            crate::place_laws::lemma_placed_at(file_out, raw, i);
            assert(crate::index::placed(file_out, raw)[i].offset + start <= u64::MAX);
            assert(raw[i].size <= u64::MAX);
        }
        law_pool_result(file, file_unwritable, threads, work);
        if all_within(file) {
            lemma_files_are_moved(
                data,
                start,
                raw,
                file_out,
                gma_path,
                file_unwritable,
                stream_out,
                limit,
                stream_unwritable,
                pool_files(file, pool),
            );
        }
    }
}

/// The place below a folder that `name` stands for, however it is spelled: the names that lead there,
/// with `/` between them.
pub open spec fn stands_for(platform: Platform, name: Seq<u8>) -> Seq<u8> {
    crate::names::folded(platform, crate::names::joined(platform.names(name)))
}

/// Whether the files can all go by their names: none of them is bad, no two count as the same or
/// stand for one place, and none stands for that of `addon.json`.
pub open spec fn go_by_their_names(platform: Platform, files: Seq<PackedFile>) -> bool {
    &&& forall|i: int|
        0 <= i < files.len() ==> {
            let name = (#[trigger] files[i]).name;
            &&& crate::name_laws::is_good(platform, name)
            &&& stands_for(platform, name) != stands_for(platform, "addon.json".spec_bytes())
        }
    &&& forall|i: int, j: int|
        0 <= i < j < files.len() ==> {
            let a = (#[trigger] files[i]).name;
            let b = (#[trigger] files[j]).name;
            &&& crate::name_laws::key_of(platform, a) != crate::name_laws::key_of(platform, b)
            &&& stands_for(platform, a) != stands_for(platform, b)
        }
}

/// Where all entries can go by their names, none of them has a fault.
proof fn lemma_no_faults(platform: Platform, raw: Seq<RawEntry>)
    requires
        forall|i: int|
            0 <= i < raw.len() ==> crate::names::own_fault(
                platform,
                (#[trigger] raw[i]).name,
            ) is None,
        forall|i: int, j: int|
            0 <= i < j < raw.len() ==> crate::names::name_key(platform, (#[trigger] raw[i]).name)
                != crate::names::name_key(platform, (#[trigger] raw[j]).name),
    ensures
        crate::index::places(platform, raw).bad.is_empty(),
        forall|i: int|
            0 <= i < raw.len() ==> (#[trigger] crate::index::fault_after(
                platform,
                raw.take(i),
                raw[i],
            )) is None,
    decreases raw.len(),
{
    if raw.len() > 0 {
        let front = raw.drop_last();
        let n = raw.len() - 1;
        let key = crate::names::name_key(platform, raw[n].name);
        assert forall|i: int| 0 <= i < front.len() implies crate::names::own_fault(
            platform,
            (#[trigger] front[i]).name,
        ) is None by {
            assert(front[i] == raw[i]);
        }
        assert forall|i: int, j: int| 0 <= i < j < front.len() implies crate::names::name_key(
            platform,
            (#[trigger] front[i]).name,
        ) != crate::names::name_key(platform, (#[trigger] front[j]).name) by {
            assert(front[i] == raw[i] && front[j] == raw[j]);
        }
        lemma_no_faults(platform, front);
        crate::place_laws::lemma_taken(platform, front, key);
        if crate::index::taken(platform, front).contains(key) {
            let j = choose|j: int|
                0 <= j < front.len() && crate::place_laws::is_accepted(
                    #[trigger] crate::index::fault_after(platform, front.take(j), front[j]),
                ) && crate::names::name_key(platform, front[j].name) == key;
            assert(front[j] == raw[j]);
        }
        assert(raw[n].name == raw.last().name);
        assert forall|i: int| 0 <= i < raw.len() implies (#[trigger] crate::index::fault_after(
            platform,
            raw.take(i),
            raw[i],
        )) is None by {
            if i < n {
                assert(front.take(i) =~= raw.take(i));
                assert(front[i] == raw[i]);
            } else {
                assert(raw.take(i) =~= front);
            }
        }
    }
}

/// What is on a disk: what each file holds, by the names that lead to it.
pub type Disk = Map<Seq<Seq<u8>>, Seq<u8>>;

/// Whether one of `files` lies where `names` lead.
pub open spec fn has_file(files: Set<Queued>, names: Seq<Seq<u8>>, q: Queued) -> bool {
    files.contains(q) && q.path.names() == names
}

/// The disk with `files` on it, no two of which lie at one place.
pub open spec fn disk_with(disk: Disk, files: Set<Queued>) -> Disk {
    Map::new(
        |names: Seq<Seq<u8>>|
            disk.contains_key(names) || exists|q: Queued| #[trigger] has_file(files, names, q),
        |names: Seq<Seq<u8>>|
            if exists|q: Queued| #[trigger] has_file(files, names, q) {
                (choose|q: Queued| #[trigger] has_file(files, names, q)).contents
            } else {
                disk[names]
            },
    )
}

/// Whether `after` is the disk `before` with the files that were packed in the folder `out`, each
/// under its name, and with an `addon.json` that holds `text`, but with nothing else.
pub open spec fn holds_exactly(
    before: Disk,
    after: Disk,
    out: PathView,
    files: Seq<PackedFile>,
    text: Seq<char>,
) -> bool {
    let addon_json = out.join("addon.json".spec_bytes()).names();
    &&& after.contains_key(addon_json)
    &&& after[addon_json] == vstd::utf8::encode_utf8(text)
    &&& forall|i: int|
        0 <= i < files.len() ==> {
            let names = out.join((#[trigger] files[i]).name).names();
            after.contains_key(names) && after[names] == files[i].contents
        }
    &&& forall|names: Seq<Seq<u8>>|
        #![trigger after.contains_key(names)]
        #![trigger before.contains_key(names)]
        names != addon_json && (forall|i: int|
            0 <= i < files.len() ==> names != out.join((#[trigger] files[i]).name).names()) ==> {
            &&& after.contains_key(names) <==> before.contains_key(names)
            &&& before.contains_key(names) ==> after[names] == before[names]
        }
}

/// Names that stand for different places lead to different files.
proof fn lemma_lead_apart(out: PathView, a: Seq<u8>, b: Seq<u8>)
    requires
        stands_for(out.platform, a) != stands_for(out.platform, b),
    ensures
        out.join(a).names() != out.join(b).names(),
{
    crate::place_laws::lemma_join_names(out, a);
    crate::place_laws::lemma_join_names(out, b);
    let n = out.names().len() as int;
    if out.join(a).names() == out.join(b).names() {
        assert(out.join(a).names().skip(n) =~= out.platform.names(a));
        assert(out.join(b).names().skip(n) =~= out.platform.names(b));
    }
}

/// The disk holds exactly what it is to hold if the files that were written are those that were
/// packed.
proof fn lemma_disk(
    before: Disk,
    out: PathView,
    files: Seq<PackedFile>,
    text: Seq<char>,
    left: Set<Queued>,
)
    requires
        go_by_their_names(out.platform, files),
        forall|q: Queued| #[trigger]
            left.contains(q) <==> exists|i: int|
                0 <= i < files.len() && q.path == out.join((#[trigger] files[i]).name)
                    && q.contents == files[i].contents,
    ensures
        holds_exactly(
            before,
            disk_with(
                before.insert(
                    out.join("addon.json".spec_bytes()).names(),
                    vstd::utf8::encode_utf8(text),
                ),
                left,
            ),
            out,
            files,
            text,
        ),
{
    let addon_json = "addon.json".spec_bytes();
    let start = before.insert(out.join(addon_json).names(), vstd::utf8::encode_utf8(text));
    let after = disk_with(start, left);
    assert forall|names: Seq<Seq<u8>>, q: Queued| #[trigger]
        has_file(left, names, q) implies exists|i: int|
        0 <= i < files.len() && names == out.join((#[trigger] files[i]).name).names() && q.contents
            == files[i].contents by {
        assert(left.contains(q));
    }
    assert forall|i: int| 0 <= i < files.len() implies ({
        let names = out.join((#[trigger] files[i]).name).names();
        after.contains_key(names) && after[names] == files[i].contents
    }) by {
        let names = out.join(files[i].name).names();
        let q = Queued { path: out.join(files[i].name), contents: files[i].contents };
        assert(left.contains(q));
        assert(has_file(left, names, q));
        let found = choose|q: Queued| #[trigger] has_file(left, names, q);
        assert(has_file(left, names, found));
        let j = choose|j: int|
            0 <= j < files.len() && names == out.join((#[trigger] files[j]).name).names()
                && found.contents == files[j].contents;
        if i < j {
            lemma_lead_apart(out, files[i].name, files[j].name);
        }
        if j < i {
            lemma_lead_apart(out, files[j].name, files[i].name);
        }
    }
    if exists|q: Queued| #[trigger] has_file(left, out.join(addon_json).names(), q) {
        let q = choose|q: Queued| #[trigger] has_file(left, out.join(addon_json).names(), q);
        let j = choose|j: int|
            0 <= j < files.len() && out.join(addon_json).names() == out.join(
                (#[trigger] files[j]).name,
            ).names() && q.contents == files[j].contents;
        lemma_lead_apart(out, files[j].name, addon_json);
    }
}

/// The files that were packed go by their names.
pub proof fn lemma_packed_places(out: PathView, files: Seq<PackedFile>, i: int)
    requires
        go_by_their_names(out.platform, files),
        0 <= i < files.len(),
    ensures
        crate::index::placed(out, crate::archive_laws::listing(files)).len() == files.len(),
        crate::index::placed(out, crate::archive_laws::listing(files))[i].path == out.join(
            files[i].name,
        ),
        crate::index::placed(out, crate::archive_laws::listing(files))[i].fault is None,
{
    let raw = crate::archive_laws::listing(files);
    assert forall|k: int| 0 <= k < raw.len() implies crate::names::own_fault(
        out.platform,
        (#[trigger] raw[k]).name,
    ) is None by {
        assert(raw[k].name == files[k].name);
        crate::name_laws::law_name_faults(out.platform, files[k].name, Set::empty());
    }
    assert forall|k: int, l: int| 0 <= k < l < raw.len() implies crate::names::name_key(
        out.platform,
        (#[trigger] raw[k]).name,
    ) != crate::names::name_key(out.platform, (#[trigger] raw[l]).name) by {
        assert(raw[k].name == files[k].name);
        assert(raw[l].name == files[l].name);
        crate::name_laws::law_name_keys(out.platform, files[k].name);
        crate::name_laws::law_name_keys(out.platform, files[l].name);
    }
    lemma_no_faults(out.platform, raw);
    crate::place_laws::lemma_placed_at(out, raw, i);
    assert(crate::index::fault_after(out.platform, raw.take(i), raw[i]) is None);
}

/// The whole of an extraction, from the bytes of an archive to the files on the disk: if the files
/// that were packed can go by their names, and nothing goes wrong with reading and writing, then
/// whatever the limits of memory and threads, and in whichever way the entries are written, it
/// succeeds, and the disk holds exactly the files that were packed, each under its name in the
/// output folder, and the `addon.json` that the archive's title and description come to, besides
/// what it held before.
pub proof fn law_extraction(
    head: ArchiveHead,
    files: Seq<PackedFile>,
    config: ConfigView,
    before: Disk,
    outcomes: Seq<bool>,
    events: Seq<ParallelEvent>,
    gma_path: PathView,
    work: Seq<(int, WorkerEvent)>,
)
    requires
        crate::archive_laws::can_be_packed(head, files),
        files.len() <= usize::MAX,
        crate::archive_laws::archive_bytes(head, files).len() <= u64::MAX,
        go_by_their_names(config.out.platform, files),
        config.max_io_threads > 0,
        ({
            let data = crate::archive_laws::archive_bytes(head, files);
            let stream = stream_of(data, config.out, config.max_io_memory_usage);
            let file = file_of(data, config.out, gma_path);
            let threads = config.max_io_threads;
            &&& crate::engine_laws::sequential_run_true(
                stream.paths,
                stream.sizes,
                stream.start,
                Set::empty(),
                outcomes,
            )
            &&& crate::parallel::parallel_run_possible(stream, events)
            &&& crate::engine_laws::parallel_run_true(stream, Set::empty(), events)
            &&& crate::pool::pool_run_possible(file, threads, work)
            &&& pool_run_true(file, Set::empty(), threads, work)
        }),
    ensures
        ({
            let data = crate::archive_laws::archive_bytes(head, files);
            let stream = stream_of(data, config.out, config.max_io_memory_usage);
            let file = file_of(data, config.out, gma_path);
            let threads = config.max_io_threads;
            let text = crate::extract::addon_json_of(crate::header::header(data, 0)->Done_0);
            let disk = before.insert(
                crate::extract::addon_json_path(config).names(),
                vstd::utf8::encode_utf8(text),
            );
            let (one, one_world) = crate::sequential::sequential_run(
                stream.sizes,
                stream.start,
                outcomes,
            );
            let many = crate::parallel::parallel_run(stream, events);
            let pool = crate::pool::pool_run(file, threads, work);
            &&& crate::header::header(data, 0)->Done_0 == (HeaderView {
                title: head.title,
                addon_json: head.addon_json,
            })
            &&& stream_end(
                data,
                crate::engine_laws::sequential_end(stream.paths, stream.sizes, one),
            ) matches Some(result) ==> result is None && holds_exactly(
                before,
                disk_with(disk, crate::engine_laws::sequential_files(stream.paths, one_world)),
                config.out,
                files,
                text,
            )
            &&& stream_end(data, crate::engine_laws::parallel_end(stream, many)) matches Some(result)
                ==> result is None && holds_exactly(
                before,
                disk_with(disk, crate::engine_laws::parallel_files(stream, many)),
                config.out,
                files,
                text,
            )
            &&& file_end(data, config.out, pool_end(pool)) matches Some(result) ==> result is None
                && holds_exactly(
                before,
                disk_with(disk, pool_files(file, pool)),
                config.out,
                files,
                text,
            )
        }),
{
    lemma_extraction(
        head,
        files,
        config,
        before,
        Set::empty(),
        Set::empty(),
        outcomes,
        events,
        gma_path,
        work,
    );
}

/// The whole of an extraction, where files that cannot be written are none of those that were packed.
pub proof fn lemma_extraction(
    head: ArchiveHead,
    files: Seq<PackedFile>,
    config: ConfigView,
    before: Disk,
    unwritable: Set<PathView>,
    file_unwritable: Set<PathView>,
    outcomes: Seq<bool>,
    events: Seq<ParallelEvent>,
    gma_path: PathView,
    work: Seq<(int, WorkerEvent)>,
)
    requires
        crate::archive_laws::can_be_packed(head, files),
        files.len() <= usize::MAX,
        crate::archive_laws::archive_bytes(head, files).len() <= u64::MAX,
        go_by_their_names(config.out.platform, files),
        forall|i: int|
            0 <= i < files.len() ==> {
                let path = config.out.join((#[trigger] files[i]).name);
                !unwritable.contains(path) && !file_unwritable.contains(path)
            },
        config.max_io_threads > 0,
        ({
            let data = crate::archive_laws::archive_bytes(head, files);
            let stream = stream_of(data, config.out, config.max_io_memory_usage);
            let file = file_of(data, config.out, gma_path);
            let threads = config.max_io_threads;
            &&& crate::engine_laws::sequential_run_true(
                stream.paths,
                stream.sizes,
                stream.start,
                unwritable,
                outcomes,
            )
            &&& crate::parallel::parallel_run_possible(stream, events)
            &&& crate::engine_laws::parallel_run_true(stream, unwritable, events)
            &&& crate::pool::pool_run_possible(file, threads, work)
            &&& pool_run_true(file, file_unwritable, threads, work)
        }),
    ensures
        ({
            let data = crate::archive_laws::archive_bytes(head, files);
            let stream = stream_of(data, config.out, config.max_io_memory_usage);
            let file = file_of(data, config.out, gma_path);
            let threads = config.max_io_threads;
            let text = crate::extract::addon_json_of(crate::header::header(data, 0)->Done_0);
            let disk = before.insert(
                crate::extract::addon_json_path(config).names(),
                vstd::utf8::encode_utf8(text),
            );
            let (one, one_world) = crate::sequential::sequential_run(
                stream.sizes,
                stream.start,
                outcomes,
            );
            let many = crate::parallel::parallel_run(stream, events);
            let pool = crate::pool::pool_run(file, threads, work);
            &&& crate::header::header(data, 0)->Done_0 == (HeaderView {
                title: head.title,
                addon_json: head.addon_json,
            })
            &&& stream_end(
                data,
                crate::engine_laws::sequential_end(stream.paths, stream.sizes, one),
            ) matches Some(result) ==> result is None && holds_exactly(
                before,
                disk_with(disk, crate::engine_laws::sequential_files(stream.paths, one_world)),
                config.out,
                files,
                text,
            )
            &&& stream_end(data, crate::engine_laws::parallel_end(stream, many)) matches Some(result)
                ==> result is None && holds_exactly(
                before,
                disk_with(disk, crate::engine_laws::parallel_files(stream, many)),
                config.out,
                files,
                text,
            )
            &&& file_end(data, config.out, pool_end(pool)) matches Some(result) ==> result is None
                && holds_exactly(
                before,
                disk_with(disk, pool_files(file, pool)),
                config.out,
                files,
                text,
            )
        }),
{
    let data = crate::archive_laws::archive_bytes(head, files);
    let raw = crate::archive_laws::listing(files);
    let start = crate::archive_laws::stream_behind_index(head, files).pos;
    let out = config.out;
    let limit = config.max_io_memory_usage;
    let stream = stream_job(data, start, raw, out, limit);
    let file = file_job(data, start, raw, out, gma_path);
    let threads = config.max_io_threads;
    let text = crate::extract::addon_json_of(crate::header::header(data, 0)->Done_0);
    let n = files.len() as int;
    crate::archive_laws::law_archive_round_trip(head, files, out);
    crate::index::lemma_placed_total(out, raw);
    assert(listed(data) == raw && contents_start(data) == start);
    assert(raw_sizes(raw) =~= crate::archive_laws::packed_sizes(files));
    assert(stream.start == crate::archive_laws::stream_behind_index(head, files));
    crate::archive_laws::lemma_sum_first_is_total(files, n);
    crate::archive_laws::lemma_contents_len(files);
    assert(raw.take(n) =~= raw);
    assert forall|k: int| 0 <= k < raw.len() implies (#[trigger] raw[k]).size <= u64::MAX by {
        assert(files[k].valid());
    }
    lemma_cut_or_not(stream.sizes, stream.start);
    crate::engine_laws::law_sequential_result(
        stream.paths,
        stream.sizes,
        stream.start,
        unwritable,
        outcomes,
    );
    crate::engine_laws::law_parallel_result(stream, unwritable, events);
    let all = crate::engine_laws::all_files(stream.paths, stream.sizes, stream.start, unwritable);
    assert forall|i: int| 0 <= i < n implies {
        &&& #[trigger] stream.paths[i] == out.join(files[i].name)
        &&& file.entries[i].path == out.join(files[i].name)
        &&& crate::sequential::contents_at(stream.sizes, stream.start, i) == files[i].contents
        &&& file.contents(i) == files[i].contents
        &&& file.entries[i].offset <= u64::MAX
        &&& file.entries[i].size <= u64::MAX
        &&& crate::index::placed(out, raw)[i].offset + start <= u64::MAX
    } by {
        lemma_packed_places(out, files, i);
        crate::archive_laws::lemma_stream_contents(head, files, i);
        lemma_same_contents(data, start, raw, out, gma_path, out, limit, i);
        assert(raw[i].size <= u64::MAX);
    }
    assert forall|i: int| 0 <= i < n implies !unwritable.contains(#[trigger] stream.paths[i]) by {
        assert(stream.paths[i] == out.join(files[i].name));
    }
    lemma_none_unwritable(stream.paths, unwritable, n);
    assert forall|q: Queued| #[trigger] all.contains(q) <==> exists|i: int|
        0 <= i < files.len() && q.path == out.join((#[trigger] files[i]).name) && q.contents
            == files[i].contents by {
        if all.contains(q) {
            let i = choose|i: int|
                0 <= i < stream.sizes.len() && !unwritable.contains(#[trigger] stream.paths[i]) && q.path
                    == stream.paths[i] && q.contents == crate::sequential::contents_at(
                    stream.sizes,
                    stream.start,
                    i,
                );
            assert(q.path == out.join(files[i].name) && q.contents == files[i].contents);
        }
        if exists|i: int|
            0 <= i < files.len() && q.path == out.join((#[trigger] files[i]).name) && q.contents
                == files[i].contents {
            let i = choose|i: int|
                0 <= i < files.len() && q.path == out.join((#[trigger] files[i]).name) && q.contents
                    == files[i].contents;
            assert(!unwritable.contains(stream.paths[i]));
        }
    }
    lemma_disk(before, out, files, text, all);
    let pool = crate::pool::pool_run(file, threads, work);
    if pool_end(pool) is Some {
        lemma_within(data, start, raw, out, gma_path, n);
        assert forall|i: int| 0 <= i < n implies !file_unwritable.contains(
            #[trigger] paths_of(file.entries)[i],
        ) by {
            assert(stream.paths[i] == out.join(files[i].name));
        }
        lemma_none_unwritable(paths_of(file.entries), file_unwritable, n);
        law_pool_result(file, file_unwritable, threads, work);
        let left = pool_files(file, pool);
        assert forall|q: Queued| #[trigger] left.contains(q) <==> exists|i: int|
            0 <= i < files.len() && q.path == out.join((#[trigger] files[i]).name) && q.contents
                == files[i].contents by {
            if left.contains(q) {
                let i = choose|i: int|
                    0 <= i < file.entries.len() && (#[trigger] file.entries[i]).path == q.path
                        && !file_unwritable.contains(q.path) && file.contents(i) == q.contents;
                assert(stream.paths[i] == out.join(files[i].name));
            }
            if exists|i: int|
                0 <= i < files.len() && q.path == out.join((#[trigger] files[i]).name) && q.contents
                    == files[i].contents {
                let i = choose|i: int|
                    0 <= i < files.len() && q.path == out.join((#[trigger] files[i]).name)
                        && q.contents == files[i].contents;
                assert(stream.paths[i] == out.join(files[i].name));
                assert(file.entries[i].path == q.path);
            }
        }
        lemma_disk(before, out, files, text, left);
    }
}

/// Where every file can be written, none is counted.
proof fn lemma_none_unwritable(paths: Seq<PathView>, unwritable: Set<PathView>, n: int)
    requires
        forall|i: int| 0 <= i < n ==> !unwritable.contains(#[trigger] paths[i]),
    ensures
        crate::engine_laws::count_unwritable(paths, unwritable, n) == 0,
    decreases n,
{
    if n > 0 {
        lemma_none_unwritable(paths, unwritable, n - 1);
        assert(!unwritable.contains(paths[n - 1]));
    }
}

} // verus!
