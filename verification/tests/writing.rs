use fastgmad::conf::NonZeroUsize;
use fastgmad::copy::{
    read_exact_at, write_entry_at, write_entry_streaming, FileCopy, FileStep, ReadAt, ReadReply, StreamCopy,
    StreamStep, COPY_CHUNK,
};
use fastgmad::error::IoFailure;
use fastgmad::index::GmaEntry;
use fastgmad::parallel::{write_entries_parallel, ParallelRead, ReaderEvent, ReaderStep};
use fastgmad::path::{OsPath, Platform};
use fastgmad::pool::{extract_entries_parallel, ExtractPool, WorkerEvent, WorkerStep};
use fastgmad::queue::{Admission, Task, WriteQueue};
use fastgmad::sequential::{write_entries_sequential, SequentialWrite};

fn path(name: &str) -> OsPath {
    OsPath::new(Platform::Unix, name.as_bytes().to_vec())
}

fn failure(message: &str) -> IoFailure {
    IoFailure { unexpected_eof: false, message: message.to_string() }
}

fn entry(name: &str, offset: u64, size: u64) -> GmaEntry {
    GmaEntry { name: name.as_bytes().to_vec(), path: path(name), offset, size, fault: None }
}

/// The steps of a copy from a stream, where those of the given numbers fail.
fn stream_steps(size: u64, failing: &[usize]) -> (Vec<StreamStep>, usize, bool) {
    let mut copy = StreamCopy::new(size);
    let mut failed_writes = 0;
    let mut steps = Vec::new();
    let mut broken = false;
    while copy.step != StreamStep::Done && copy.step != StreamStep::Broken {
        let outcome =
            if failing.contains(&steps.len()) { Err(IoFailure::end_of_file()) } else { Ok(()) };
        steps.push(copy.step);
        broken = write_entry_streaming(&mut copy, &path("x"), outcome, &mut failed_writes).is_err();
    }
    assert_eq!(broken, copy.step == StreamStep::Broken);
    assert_eq!(copy.write_failed, failed_writes == 1);
    (steps, failed_writes, broken)
}

#[test]
fn contents_are_copied_in_chunks() {
    assert_eq!(COPY_CHUNK, 1 << 20);
    let c = COPY_CHUNK;
    assert_eq!(
        stream_steps(2 * c + 5, &[]).0,
        [
            StreamStep::Create(c),
            StreamStep::Read(c),
            StreamStep::Write(c),
            StreamStep::Read(c),
            StreamStep::Write(c),
            StreamStep::Read(5),
            StreamStep::Write(5),
            StreamStep::Flush,
        ],
    );
    assert_eq!(
        stream_steps(c, &[]).0,
        [StreamStep::Create(c), StreamStep::Read(c), StreamStep::Write(c), StreamStep::Flush],
    );
    assert_eq!(stream_steps(0, &[]).0, [StreamStep::Create(0), StreamStep::Flush]);
}

#[test]
fn a_file_that_cannot_be_written_leaves_the_stream_aligned() {
    let c = COPY_CHUNK;
    assert_eq!(
        stream_steps(2 * c, &[0]),
        (vec![StreamStep::Create(c), StreamStep::Skip(2 * c)], 1, false),
    );
    assert_eq!(
        stream_steps(2 * c, &[2]),
        (
            vec![StreamStep::Create(c), StreamStep::Read(c), StreamStep::Write(c), StreamStep::Skip(c)],
            1,
            false,
        ),
    );
    assert_eq!(
        stream_steps(7, &[3]),
        (
            vec![StreamStep::Create(7), StreamStep::Read(7), StreamStep::Write(7), StreamStep::Flush],
            1,
            false,
        ),
    );
}

#[test]
fn a_stream_that_breaks_off_is_an_error() {
    assert_eq!(stream_steps(9, &[1]), (vec![StreamStep::Create(9), StreamStep::Read(9)], 0, true));
    assert_eq!(stream_steps(9, &[0, 1]), (vec![StreamStep::Create(9), StreamStep::Skip(9)], 1, true));
    let mut copy = StreamCopy::new(1);
    let mut failed_writes = 0;
    write_entry_streaming(&mut copy, &path("x"), Ok(()), &mut failed_writes).unwrap();
    let error = write_entry_streaming(&mut copy, &path("x"), Err(failure("Gone")), &mut failed_writes)
        .unwrap_err();
    assert_eq!(error.message(), "reading GMA entry data \"x\": Gone");
}

#[test]
fn contents_are_read_where_they_lie() {
    let c = COPY_CHUNK;
    let mut copy = FileCopy::new(100, c + 1);
    let mut steps = Vec::new();
    while copy.step != FileStep::Done {
        steps.push(copy.step);
        write_entry_at(&mut copy, &path("x"), Ok(())).unwrap();
    }
    assert_eq!(
        steps,
        [
            FileStep::Create,
            FileStep::ReadAt(100, c),
            FileStep::Write(c),
            FileStep::ReadAt(100 + c, 1),
            FileStep::Write(1),
        ],
    );
    assert!(!copy.write_failed);
}

#[test]
fn a_copy_out_of_a_file_gives_up_or_fails() {
    let mut copy = FileCopy::new(7, 5);
    write_entry_at(&mut copy, &path("x"), Err(failure("Denied"))).unwrap();
    assert_eq!((copy.step, copy.write_failed), (FileStep::Probe(11), true));
    write_entry_at(&mut copy, &path("x"), Ok(())).unwrap();
    assert_eq!((copy.step, copy.write_failed), (FileStep::Done, true));

    let mut copy = FileCopy::new(7, 5);
    write_entry_at(&mut copy, &path("x"), Err(failure("Denied"))).unwrap();
    let error = write_entry_at(&mut copy, &path("x"), Err(IoFailure::end_of_file())).unwrap_err();
    assert_eq!(error.message(), "GMA is truncated, entry \"x\" is cut short");
    assert_eq!(copy.step, FileStep::Broken);

    let mut copy = FileCopy::new(u64::MAX - 3, 5);
    let error = write_entry_at(&mut copy, &path("x"), Err(failure("Denied"))).unwrap_err();
    assert_eq!(error.message(), "GMA is truncated, entry \"x\" is cut short");

    let mut copy = FileCopy::new(7, 0);
    write_entry_at(&mut copy, &path("x"), Err(failure("Denied"))).unwrap();
    assert_eq!((copy.step, copy.write_failed), (FileStep::Done, true));

    let mut copy = FileCopy::new(0, 5);
    write_entry_at(&mut copy, &path("x"), Ok(())).unwrap();
    let error = write_entry_at(&mut copy, &path("x"), Err(IoFailure::end_of_file())).unwrap_err();
    assert_eq!(error.message(), "GMA is truncated, entry \"x\" is cut short");
    assert_eq!((copy.step, copy.write_failed), (FileStep::Broken, false));

    let mut copy = FileCopy::new(0, 5);
    write_entry_at(&mut copy, &path("x"), Ok(())).unwrap();
    write_entry_at(&mut copy, &path("x"), Ok(())).unwrap();
    write_entry_at(&mut copy, &path("x"), Err(failure("Full"))).unwrap();
    assert_eq!((copy.step, copy.write_failed), (FileStep::Done, true));

    let mut copy = FileCopy::new(u64::MAX, 0);
    write_entry_at(&mut copy, &path("x"), Ok(())).unwrap();
    assert_eq!((copy.step, copy.write_failed), (FileStep::Done, false));
}

#[test]
fn single_reads_add_up() {
    let mut read = ReadAt::new(10, 5);
    assert!(!read.is_complete());
    read_exact_at(&mut read, ReadReply::Got(2)).unwrap();
    assert_eq!((read.position, read.got), (12, 2));
    read_exact_at(&mut read, ReadReply::Interrupted).unwrap();
    assert_eq!((read.position, read.got), (12, 2));
    read_exact_at(&mut read, ReadReply::Got(3)).unwrap();
    assert!(read.is_complete());
    assert!(ReadAt::new(10, 0).is_complete());

    let mut read = ReadAt::new(10, 5);
    let end = read_exact_at(&mut read, ReadReply::Got(0)).unwrap_err();
    assert!(end.unexpected_eof);
    assert_eq!(end.message, "unexpected end of file");
    let error = read_exact_at(&mut read, ReadReply::Failed(failure("Gone"))).unwrap_err();
    assert!(!error.unexpected_eof);
    assert_eq!(error.message, "Gone");
}

#[test]
fn failed_files_are_counted_one_by_one() {
    let entries = [entry("a", 0, 1), entry("b", 1, 0), entry("c", 1, 2)];
    let mut state = SequentialWrite::new(&entries);
    let mut steps = Vec::new();
    while !state.is_over(&entries) {
        steps.push((state.index, state.copy.step));
        let outcome = match state.copy.step {
            StreamStep::Create(_) if state.index != 1 => Err(failure("Denied")),
            _ => Ok(()),
        };
        write_entries_sequential(&mut state, &entries, outcome).unwrap();
    }
    assert_eq!(
        steps,
        [
            (0, StreamStep::Create(1)),
            (0, StreamStep::Skip(1)),
            (1, StreamStep::Create(0)),
            (1, StreamStep::Flush),
            (2, StreamStep::Create(2)),
            (2, StreamStep::Skip(2)),
        ],
    );
    assert_eq!(state.failed_writes, 2);
    assert_eq!(
        state.finish().unwrap_err().message(),
        "extracting GMA entries: 2 files failed to write",
    );
}

#[test]
fn no_entries_are_written_at_once() {
    let state = SequentialWrite::new(&[]);
    assert!(state.is_over(&[]));
    assert!(state.finish().is_ok());
    assert!(ParallelRead::new().is_over(&[]));
}

#[test]
fn a_broken_stream_names_its_entry() {
    let entries = [entry("a", 0, 0), entry("b", 0, 3)];
    let mut state = SequentialWrite::new(&entries);
    for _ in 0..3 {
        write_entries_sequential(&mut state, &entries, Ok(())).unwrap();
    }
    assert_eq!((state.index, state.copy.step), (1, StreamStep::Read(3)));
    let error =
        write_entries_sequential(&mut state, &entries, Err(IoFailure::end_of_file())).unwrap_err();
    assert_eq!(error.message(), "GMA is truncated, entry \"b\" is cut short");
}

fn queue(limit: usize) -> WriteQueue {
    WriteQueue::new(NonZeroUsize::new(limit).unwrap())
}

fn take(queue: &mut WriteQueue) -> (Vec<u8>, Vec<u8>) {
    match queue.take() {
        Task::Write(path, buf) => (path.to_bytes(), buf),
        other => panic!("{other:?}"),
    }
}

#[test]
fn memory_is_booked_and_given_back() {
    let mut q = queue(10);
    assert_eq!(q.reserve(11), Admission::Stream);
    assert_eq!(q.reserve(u64::MAX), Admission::Stream);
    assert_eq!(q.reserve(6), Admission::Read);
    assert_eq!(q.mem_used, 6);
    assert_eq!(q.reserve(5), Admission::Wait);
    assert_eq!(q.mem_used, 6);
    assert_eq!(q.reserve(4), Admission::Read);
    assert_eq!(q.reserve(0), Admission::Read);
    assert_eq!(q.reserve(1), Admission::Wait);
    q.receive(&path("a"), 6, Ok(vec![1; 6])).unwrap();
    let (_, buf) = take(&mut q);
    assert_eq!(q.mem_used, 10);
    q.finish(buf.len(), true);
    assert_eq!(q.mem_used, 4);
    assert_eq!(q.failed_writes, 0);
    assert_eq!(q.reserve(6), Admission::Read);
}

#[test]
fn what_was_read_first_is_written_first() {
    let mut q = queue(100);
    for name in ["a", "b", "c"] {
        assert_eq!(q.reserve(1), Admission::Read);
        q.receive(&path(name), 1, Ok(name.as_bytes().to_vec())).unwrap();
    }
    assert_eq!(take(&mut q), (b"a".to_vec(), b"a".to_vec()));
    assert_eq!(take(&mut q), (b"b".to_vec(), b"b".to_vec()));
    q.close();
    assert_eq!(take(&mut q), (b"c".to_vec(), b"c".to_vec()));
    assert!(matches!(q.take(), Task::Stop));
    q.finish(1, false);
    q.finish(1, true);
    q.finish(1, false);
    assert_eq!((q.mem_used, q.failed_writes), (0, 2));
    assert_eq!(
        q.result(1).unwrap_err().message(),
        "extracting GMA entries: 3 files failed to write",
    );
}

#[test]
fn writers_wait_while_the_reader_goes_on() {
    let mut q = queue(1);
    assert!(matches!(q.take(), Task::Wait));
    q.close();
    assert!(matches!(q.take(), Task::Stop));
    assert!(q.result(0).is_ok());
}

#[test]
fn contents_that_are_cut_short_are_not_queued() {
    let mut q = queue(10);
    q.reserve(5);
    let error = q.receive(&path("a"), 5, Ok(vec![0; 4])).unwrap_err();
    assert_eq!(error.message(), "GMA is truncated, entry \"a\" is cut short");
    let error = q.receive(&path("a"), 5, Err(failure("Gone"))).unwrap_err();
    assert_eq!(error.message(), "reading GMA entry data \"a\": Gone");
    let error = q.receive(&path("a"), 5, Err(IoFailure::end_of_file())).unwrap_err();
    assert_eq!(error.message(), "GMA is truncated, entry \"a\" is cut short");
    assert!(matches!(q.take(), Task::Wait));
}

#[test]
fn the_reader_asks_then_reads_or_copies() {
    let entries = [entry("a", 0, 3), entry("b", 3, 2), entry("big", 5, 9)];
    let mut q = queue(4);
    let mut reader = ParallelRead::new();
    write_entries_parallel(&mut reader, &mut q, &entries, ReaderEvent::Ask).unwrap();
    assert_eq!(reader.step, ReaderStep::Read(3));
    write_entries_parallel(&mut reader, &mut q, &entries, ReaderEvent::Read(Ok(vec![1, 2, 3]))).unwrap();
    assert_eq!((reader.index, reader.step), (1, ReaderStep::Ask));
    write_entries_parallel(&mut reader, &mut q, &entries, ReaderEvent::Ask).unwrap();
    assert_eq!(reader.step, ReaderStep::Wait);
    let (_, buf) = take(&mut q);
    q.finish(buf.len(), true);
    write_entries_parallel(&mut reader, &mut q, &entries, ReaderEvent::Ask).unwrap();
    assert_eq!(reader.step, ReaderStep::Read(2));
    write_entries_parallel(&mut reader, &mut q, &entries, ReaderEvent::Read(Ok(vec![4, 5]))).unwrap();
    write_entries_parallel(&mut reader, &mut q, &entries, ReaderEvent::Ask).unwrap();
    assert_eq!(reader.step, ReaderStep::Copy(StreamCopy::new(9)));
    assert_eq!(q.mem_used, 2);
    let denied = ReaderEvent::Copied(Err(failure("Denied")));
    write_entries_parallel(&mut reader, &mut q, &entries, denied).unwrap();
    write_entries_parallel(&mut reader, &mut q, &entries, ReaderEvent::Copied(Ok(()))).unwrap();
    assert!(reader.is_over(&entries));
    assert_eq!(reader.inline_failed_writes, 1);
}

#[test]
fn a_stream_that_breaks_off_stops_the_reader() {
    let entries = [entry("a", 0, 3)];
    let mut q = queue(4);
    let mut reader = ParallelRead::new();
    write_entries_parallel(&mut reader, &mut q, &entries, ReaderEvent::Ask).unwrap();
    let short = ReaderEvent::Read(Ok(vec![1, 2]));
    let error = write_entries_parallel(&mut reader, &mut q, &entries, short).unwrap_err();
    assert_eq!(error.message(), "GMA is truncated, entry \"a\" is cut short");
    assert_eq!(reader.step, ReaderStep::Broken);

    let mut q = queue(2);
    let mut reader = ParallelRead::new();
    write_entries_parallel(&mut reader, &mut q, &entries, ReaderEvent::Ask).unwrap();
    write_entries_parallel(&mut reader, &mut q, &entries, ReaderEvent::Copied(Ok(()))).unwrap();
    let gone = ReaderEvent::Copied(Err(failure("Gone")));
    let error = write_entries_parallel(&mut reader, &mut q, &entries, gone).unwrap_err();
    assert_eq!(error.message(), "reading GMA entry data \"a\": Gone");
    assert_eq!(reader.step, ReaderStep::Broken);
}

#[test]
fn every_entry_is_taken_once() {
    let entries = [entry("a", 10, 0), entry("b", 10, 0), entry("c", 10, 0)];
    let mut pool = ExtractPool::new();
    let mut workers = [WorkerStep::Claim, WorkerStep::Claim];
    let mut seen = Vec::new();
    while workers != [WorkerStep::Stop; 2] {
        for worker in &mut workers {
            let event = match *worker {
                WorkerStep::Claim => WorkerEvent::Claim,
                WorkerStep::Copy(index, copy) => {
                    assert_eq!(copy, FileCopy::new(10, 0));
                    seen.push(index);
                    WorkerEvent::Copied(if index == 1 { Err(failure("Denied")) } else { Ok(()) })
                }
                _ => continue,
            };
            extract_entries_parallel(worker, &mut pool, &path("x.gma"), &entries, event);
        }
    }
    assert_eq!(seen, [0, 1, 2]);
    assert_eq!(
        pool.result().unwrap_err().message(),
        "extracting GMA entries: 1 files failed to write",
    );
}

#[test]
fn the_first_error_stops_everyone() {
    let entries = [entry("a", 0, 5), entry("b", 5, 5), entry("c", 10, 5)];
    let gma = path("x.gma");
    let mut pool = ExtractPool::new();
    let mut first = WorkerStep::Claim;
    let mut second = WorkerStep::Claim;
    for worker in [&mut first, &mut second] {
        extract_entries_parallel(worker, &mut pool, &gma, &entries, WorkerEvent::Claim);
        extract_entries_parallel(worker, &mut pool, &gma, &entries, WorkerEvent::Copied(Ok(())));
    }
    let end = WorkerEvent::Copied(Err(IoFailure::end_of_file()));
    extract_entries_parallel(&mut second, &mut pool, &gma, &entries, end);
    assert_eq!(second, WorkerStep::Stop);
    let gone = WorkerEvent::Copied(Err(failure("Gone")));
    extract_entries_parallel(&mut first, &mut pool, &gma, &entries, gone);
    assert_eq!(first, WorkerStep::Stop);
    let mut third = WorkerStep::Claim;
    extract_entries_parallel(&mut third, &mut pool, &gma, &entries, WorkerEvent::Claim);
    assert_eq!(third, WorkerStep::Stop);
    assert_eq!(
        pool.result().unwrap_err().message(),
        "GMA is truncated, entry \"b\" is cut short",
    );
}

#[test]
fn an_archive_that_cannot_be_opened_is_an_error() {
    let entries = [entry("a", 0, 5)];
    let mut pool = ExtractPool::new();
    let mut worker = WorkerStep::Open;
    let gone = WorkerEvent::Opened(Err(failure("No such file")));
    extract_entries_parallel(&mut worker, &mut pool, &path("x.gma"), &entries, gone);
    assert_eq!(worker, WorkerStep::Stop);
    assert_eq!(pool.result().unwrap_err().message(), "opening GMA file \"x.gma\": No such file");
}
