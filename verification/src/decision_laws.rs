//! Single decisions, told by what they are about.

use vstd::prelude::*;

use crate::conf::JobView;
use crate::copy::{FileCopy, FileStep, ReadAt, ReadReply, StreamCopy, StreamStep};
use crate::error::{ContextView, ErrorView, IoFailure, KindView};
use crate::extract::{ExtractStep, ExtractionView};
use crate::index::EntryView;
use crate::parallel::{ParallelRead, ReaderStep};
use crate::path::PathView;
use crate::pool::{PoolView, WorkerStep};
use crate::queue::{Admission, QueueView, Queued};
use crate::sequential::SequentialWrite;

verus! {

/// The smaller of two numbers.
pub open spec fn smaller(a: int, b: int) -> int {
    if a <= b {
        a
    } else {
        b
    }
}

/// What a copy from a stream does: it creates the file, with room for up to 1 MiB; as long as contents
/// remain it reads up to 1 MiB of them and writes what it has read; and then it flushes. A file that
/// cannot be created or written is given up, and what remains of its contents is left out; a file that
/// cannot be flushed is given up too. A stream that cannot be read, or left out, breaks the copy.
pub proof fn law_stream_copy_steps(copy: StreamCopy, size: u64, worked: bool)
    requires
        copy.valid(),
    ensures
        StreamCopy::begin(size).size == size,
        StreamCopy::begin(size).remaining == size,
        !StreamCopy::begin(size).write_failed,
        StreamCopy::begin(size).step matches StreamStep::Create(n) && n == smaller(
            size as int,
            0x10_0000,
        ),
        ({
            let next = copy.next(worked);
            let is_read = copy.step is Create || copy.step is Write;
            &&& next.size == copy.size
            &&& is_read && worked && copy.remaining > 0 ==> (next.step matches StreamStep::Read(n)
                && n == smaller(copy.remaining as int, 0x10_0000))
            &&& is_read && worked && copy.remaining == 0 ==> next.step is Flush
            &&& is_read && !worked ==> next.step == StreamStep::Skip(copy.remaining)
                && next.write_failed
            &&& is_read ==> next.remaining == copy.remaining && (worked ==> !next.write_failed)
            &&& copy.step matches StreamStep::Read(n) ==> (worked ==> {
                &&& next.step == StreamStep::Write(n)
                &&& next.remaining == copy.remaining - n
                &&& !next.write_failed
            })
            &&& copy.step is Skip && worked ==> next.step is Done && next.remaining == 0
                && next.write_failed
            &&& copy.step is Read || copy.step is Skip ==> (next.step is Broken <==> !worked)
            &&& copy.step is Flush ==> next.step is Done && next.remaining == 0
                && next.write_failed == !worked
            &&& copy.step is Done || copy.step is Broken ==> next == copy
        }),
{
}

/// What a copy out of a file does: it creates the file; as long as contents remain it reads up to 1 MiB
/// of them, from where they lie, and writes what it has read. Of a file that cannot be created or
/// written, it is looked whether the last byte of the contents is there, unless that was read. Contents
/// that are not there break the copy.
pub proof fn law_file_copy_steps(copy: FileCopy, offset: u64, size: u64, worked: bool)
    requires
        copy.valid(),
        worked ==> copy.can_work(),
    ensures
        FileCopy::begin(offset, size).position == offset,
        FileCopy::begin(offset, size).remaining == size,
        FileCopy::begin(offset, size).step is Create,
        !FileCopy::begin(offset, size).write_failed,
        ({
            let next = copy.next(worked);
            let read = if copy.step is Write {
                copy.step->Write_0 as int
            } else {
                0
            };
            let left = copy.remaining - read;
            let is_written = copy.step is Create || copy.step is Write;
            &&& is_written && worked ==> {
                &&& next.position == copy.position + read
                &&& next.remaining == left
                &&& !next.write_failed
                &&& left > 0 ==> (next.step matches FileStep::ReadAt(position, n) && position
                    == next.position && n == smaller(left, 0x10_0000))
                &&& left == 0 ==> next.step is Done
            }
            &&& is_written && !worked ==> {
                &&& next.write_failed
                &&& left == 0 ==> next.step is Done
                &&& left > 0 && copy.position + copy.remaining <= u64::MAX ==> (
                next.step matches FileStep::Probe(position) && position == copy.position
                    + copy.remaining - 1)
                &&& left > 0 && copy.position + copy.remaining > u64::MAX ==> next.step is Broken
            }
            &&& copy.step matches FileStep::ReadAt(_, n) ==> (worked ==> {
                &&& next.step == FileStep::Write(n)
                &&& next.position == copy.position
                &&& next.remaining == copy.remaining
                &&& !next.write_failed
            })
            &&& copy.step is Probe && worked ==> next.step is Done && next.write_failed
            &&& copy.step is ReadAt || copy.step is Probe ==> (next.step is Broken <==> !worked)
            &&& copy.step is Done || copy.step is Broken ==> next == copy
        }),
{
}

/// An entry is read into memory just if it fits in beside what is there; it has to wait if it would fit
/// in if there were less; and it is copied straight to its file if it is larger than all the memory. Its
/// room is taken just if it is read.
pub proof fn law_admission(queue: QueueView, size: nat, item: Queued)
    ensures
        queue.admission(size) is Stream <==> size > queue.limit,
        queue.admission(size) is Wait <==> size <= queue.limit < queue.mem_used + size,
        queue.admission(size) is Read <==> queue.mem_used + size <= queue.limit,
        queue.admitting(size).mem_used == if queue.mem_used + size <= queue.limit {
            queue.mem_used + size
        } else {
            queue.mem_used
        },
        queue.admitting(size).queue == queue.queue,
        queue.admitting(size).limit == queue.limit,
        queue.admitting(size).failed_writes == queue.failed_writes,
        queue.admitting(size).producer_done == queue.producer_done,
        queue.receiving(item).queue == queue.queue.push(item),
        queue.receiving(item).mem_used == queue.mem_used,
{
    if queue.admission(size) is Wait {
        assert(queue.mem_used + size > queue.limit);
    }
}

/// What the reader does about an entry is what it is told.
pub proof fn law_reader_obeys(reader: ParallelRead, size: u64, todo: Admission)
    ensures
        reader.told(size, todo).index == reader.index,
        reader.told(size, todo).inline_failed_writes == reader.inline_failed_writes,
        todo is Wait ==> reader.told(size, todo).step is Wait,
        todo is Read ==> reader.told(size, todo).step == ReaderStep::Read(size),
        todo is Stream ==> (reader.told(size, todo).step matches ReaderStep::Copy(copy) && copy.size
            == size && copy.remaining == size && copy.step is Create),
{
}

/// The first error that comes up in a pool is the one that stays, and everyone is to stop from then on;
/// it is also the one that the extraction ends with. Without one it ends with an error just if there are
/// files that could not be written, and that tells how many.
pub proof fn law_first_error(pool: PoolView, error: ErrorView)
    ensures
        pool.failing(error).stop,
        pool.failing(error).failed_writes == pool.failed_writes,
        pool.failing(error).next_entry == pool.next_entry,
        pool.read_error is None ==> pool.failing(error).read_error == Some(error),
        pool.read_error is Some ==> pool.failing(error).read_error == pool.read_error,
        pool.read_error is Some ==> pool.end() == pool.read_error,
        pool.read_error is None ==> (pool.end() is None <==> pool.failed_writes == 0),
        pool.read_error is None && pool.failed_writes > 0 ==> (pool.end() matches Some(e)
            && e.message() == "extracting GMA entries: "@ + crate::text::decimal(pool.failed_writes)
            + " files failed to write"@),
{
    crate::message_laws::law_unwritten_files(pool.failed_writes);
}

/// An extraction in which nothing else went wrong ends with an error just if there are files that could
/// not be written, and that tells how many.
pub proof fn law_end_of_writes(failed: nat)
    ensures
        crate::error::end_of_writes(failed) is None <==> failed == 0,
        failed > 0 ==> (crate::error::end_of_writes(failed) matches Some(e) && e.message()
            == "extracting GMA entries: "@ + crate::text::decimal(failed) + " files failed to write"@),
{
    crate::message_laws::law_unwritten_files(failed);
}

/// An archive that cannot be opened is told of with its path; one that was opened changes nothing.
pub proof fn law_pool_opening(pool: PoolView, gma_path: PathView, failure: IoFailure)
    ensures
        pool.opening(gma_path, Ok::<(), IoFailure>(())) == pool,
        pool.opening(gma_path, Err::<(), IoFailure>(failure)) == pool.failing(
            ErrorView {
                kind: KindView::Io(failure@),
                context: Some(
                    ContextView { doing: "opening GMA file"@, path: Some(gma_path) },
                ),
            },
        ),
        WorkerStep::opened(true) is Claim,
        WorkerStep::opened(false) is Stop,
{
}

/// A worker that asks gets the next entry that nobody has taken, with all of its contents to copy, unless
/// there is none or everyone is to stop.
pub proof fn law_claims(pool: PoolView, entries: Seq<EntryView>)
    requires
        entries.len() <= usize::MAX,
        forall|i: int|
            0 <= i < entries.len() ==> (#[trigger] entries[i]).offset <= u64::MAX && entries[i].size
                <= u64::MAX,
    ensures
        ({
            let next = pool.next_entry as int;
            let worker = WorkerStep::claiming(pool, entries);
            let after = pool.claimed(entries.len());
            &&& pool.stop || next >= entries.len() ==> worker is Stop && after == pool
            &&& !pool.stop && next < entries.len() ==> {
                &&& worker matches WorkerStep::Copy(i, copy) && i == next && copy.position
                    == entries[next].offset && copy.remaining == entries[next].size && copy.step
                    is Create && !copy.write_failed
                &&& after.next_entry == next + 1
                &&& after.failed_writes == pool.failed_writes
                &&& after.read_error == pool.read_error
                &&& !after.stop
            }
        }),
{
    if pool.next_entry < entries.len() {
        let entry = entries[pool.next_entry as int];
        assert(entry.offset <= u64::MAX && entry.size <= u64::MAX);
    }
}

/// What a step of a copy means for the pool: one that breaks is an error about its entry, a file that was
/// given up is counted once the copy is done, and anything else changes nothing.
pub proof fn law_pool_copies(
    pool: PoolView,
    path: PathView,
    before: FileCopy,
    copy: FileCopy,
    index: usize,
    failure: IoFailure,
)
    ensures
        ({
            let after = pool.copied(path, before, copy, Err::<(), IoFailure>(failure));
            let is_read = before.step is ReadAt || before.step is Probe;
            &&& copy.step is Broken && is_read ==> after == pool.failing(
                ErrorView::entry(failure@, path),
            )
            &&& copy.step is Broken && !is_read ==> after == pool.failing(
                ErrorView::entry(crate::error::FailureView::end_of_file(), path),
            )
            &&& !(copy.step is Broken) ==> {
                &&& after.failed_writes == pool.failed_writes + if copy.step is Done
                    && copy.write_failed {
                    1nat
                } else {
                    0nat
                }
                &&& after.read_error == pool.read_error
                &&& after.stop == pool.stop
                &&& after.next_entry == pool.next_entry
            }
            &&& WorkerStep::copying(index, copy) is Stop <==> copy.step is Broken
            &&& WorkerStep::copying(index, copy) is Claim <==> copy.step is Done
            &&& !(copy.step is Broken) && !(copy.step is Done) ==> WorkerStep::copying(index, copy)
                == WorkerStep::Copy(index, copy)
        }),
{
}

/// An output folder that was not named may be new, or be there as a folder already; anything else in its
/// place is in the way. One that was named is taken as it is.
pub proof fn law_output_folder(job: JobView, present: bool, is_dir: bool)
    ensures
        !job.out_is_default ==> !job.is_in_the_way(present, is_dir),
        job.out_is_default && (!present || is_dir) ==> !job.is_in_the_way(present, is_dir),
        job.out_is_default && present && !is_dir ==> job.is_in_the_way(present, is_dir),
{
}

/// An extraction starts with nothing known of the archive: one of a stream with its header, and one of a
/// file with opening it.
pub proof fn law_first_steps()
    ensures
        ExtractionView::of_stream().step == ExtractStep::ReadHeader,
        ExtractionView::of_stream().entries.len() == 0,
        ExtractionView::of_stream().dirs.len() == 0,
        ExtractionView::of_file().step == ExtractStep::Open,
        ExtractionView::of_file().entries.len() == 0,
        ExtractionView::of_file().dirs.len() == 0,
{
}

/// A read that is made of single reads goes on from where the last one ended. It fails if a single one
/// does, or gives nothing; one that was interrupted is made again. It is whole when as many bytes are there
/// as were wanted.
pub proof fn law_single_reads(read: ReadAt, position: u64, want: usize, n: usize, failure: IoFailure)
    requires
        read.valid(),
        n <= read.want - read.got,
        read.position + n <= u64::MAX,
    ensures
        ReadAt::begin(position, want).position == position,
        ReadAt::begin(position, want).want == want,
        ReadAt::begin(position, want).got == 0,
        read.after(ReadReply::Got(n)).position == read.position + n,
        read.after(ReadReply::Got(n)).got == read.got + n,
        read.after(ReadReply::Got(n)).want == read.want,
        read.after(ReadReply::Interrupted) == read,
        read.after(ReadReply::Failed(failure)) == read,
        n > 0 ==> read.failure(ReadReply::Got(n)) is None,
        n == 0 ==> (read.failure(ReadReply::Got(n)) matches Some(f) && f.unexpected_eof),
        read.failure(ReadReply::Interrupted) is None,
        read.failure(ReadReply::Failed(failure)) == Some(failure@),
        read.is_whole() <==> read.want - read.got == 0,
{
}

/// Contents are whole if as many bytes were read as the entry has, and not if the read failed or gave fewer
/// or more.
pub proof fn law_whole_contents(read: Vec<u8>, failure: IoFailure, size: nat)
    ensures
        crate::queue::is_whole(Ok::<Vec<u8>, IoFailure>(read), size) <==> read@.len() == size,
        !crate::queue::is_whole(Err::<Vec<u8>, IoFailure>(failure), size),
{
}

/// A writer stops just if nothing is queued and the reader has stopped: as long as that goes on reading, or
/// something waits to be written, writers go on too. Reader and writer are done when there is no entry
/// left.
pub proof fn law_ends_of_work(
    queue: QueueView,
    reader: ParallelRead,
    writer: SequentialWrite,
    count: nat,
)
    ensures
        queue.queue.len() > 0 ==> !queue.is_at_end(),
        !queue.producer_done ==> !queue.is_at_end(),
        queue.queue.len() == 0 ==> queue.closing().is_at_end(),
        queue.closing().queue == queue.queue,
        reader.has_read(count) <==> reader.index >= count,
        writer.has_done(count) <==> writer.index >= count,
{
}

} // verus!
