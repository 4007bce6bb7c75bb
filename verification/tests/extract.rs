use std::collections::{HashMap, HashSet};

use fastgmad::conf::{ExtractGmaConfig, NonZeroUsize};
use fastgmad::copy::{read_exact_at, FileStep, ReadAt, ReadReply, StreamStep};
use fastgmad::error::{FastGmadError, IoFailure};
use fastgmad::extract::{extract_gma, extract_gma_file, ExtractStep, Extraction, WriteMode};
use fastgmad::index::GmaEntry;
use fastgmad::parallel::{write_entries_parallel, ParallelRead, ReaderEvent, ReaderStep};
use fastgmad::path::{OsPath, Platform};
use fastgmad::pool::{extract_entries_parallel, ExtractPool, WorkerEvent, WorkerStep};
use fastgmad::queue::{Task, WriteQueue};
use fastgmad::reader::Reader;
use fastgmad::sequential::{write_entries_sequential, SequentialWrite};

fn push_nul(buf: &mut Vec<u8>, s: &str) {
    buf.extend_from_slice(s.as_bytes());
    buf.push(0);
}

fn build_gma_from(entries: &[(&str, &[u8])]) -> Vec<u8> {
    let mut b = Vec::new();
    b.extend_from_slice(b"GMAD");
    b.push(3);
    b.extend_from_slice(&0u64.to_le_bytes());
    b.extend_from_slice(&0u64.to_le_bytes());
    b.push(0);
    push_nul(&mut b, "Test Addon");
    push_nul(&mut b, "{}");
    push_nul(&mut b, "author");
    b.extend_from_slice(&0u32.to_le_bytes());

    for (i, (name, data)) in entries.iter().enumerate() {
        b.extend_from_slice(&(i as u32 + 1).to_le_bytes());
        push_nul(&mut b, name);
        b.extend_from_slice(&(data.len() as u64).to_le_bytes());
        b.extend_from_slice(&0u32.to_le_bytes());
    }
    b.extend_from_slice(&0u32.to_le_bytes());
    for (_, data) in entries {
        b.extend_from_slice(data);
    }
    b
}

fn build_gma() -> Vec<u8> {
    build_gma_from(&[
        ("lua/test.lua", b"hello"),
        ("sub/dir/bin.png", &[1, 2, 3, 4, 5]),
        ("../evil.txt", b"evil"),
        ("lua/test.lua", b"duplicate"),
    ])
}

fn test_conf_on(platform: Platform, out: &str, threads: usize) -> ExtractGmaConfig {
    let mut conf = ExtractGmaConfig::default_for(platform, None);
    conf.out = OsPath::new(platform, out.as_bytes().to_vec());
    conf.max_io_threads = NonZeroUsize::new(threads).unwrap();
    conf
}

fn test_conf(out: &str, threads: usize) -> ExtractGmaConfig {
    test_conf_on(Platform::Unix, out, threads)
}

/// A disk: what its files hold, and which folders there are.
struct Disk {
    files: HashMap<Vec<u8>, Vec<u8>>,
    dirs: HashSet<Vec<u8>>,
    /// How many bytes there is room for in files that cannot hold any number.
    room: HashMap<Vec<u8>, usize>,
}

impl Disk {
    fn new() -> Disk {
        Disk { files: HashMap::new(), dirs: HashSet::new(), room: HashMap::new() }
    }

    fn failure(message: &str) -> IoFailure {
        IoFailure { unexpected_eof: false, message: message.to_string() }
    }

    /// Creates a folder and those above it.
    fn create_dir_all(&mut self, path: &OsPath) -> Result<(), IoFailure> {
        let bytes = path.to_bytes();
        for i in 0..=bytes.len() {
            if i == bytes.len() || path.platform.is_separator(bytes[i]) {
                let dir = bytes[..i].to_vec();
                if self.files.contains_key(&dir) {
                    return Err(Disk::failure("Not a directory"));
                }
                self.dirs.insert(dir);
            }
        }
        Ok(())
    }

    /// Creates an empty file in a folder that is there already.
    fn create(&mut self, path: &OsPath) -> Result<(), IoFailure> {
        let bytes = path.to_bytes();
        if self.dirs.contains(&bytes) {
            return Err(Disk::failure("Is a directory"));
        }
        let end = (0..bytes.len()).rev().find(|&i| path.platform.is_separator(bytes[i])).unwrap();
        if !self.dirs.contains(&bytes[..end]) {
            return Err(Disk::failure("No such file or directory"));
        }
        self.files.insert(bytes, Vec::new());
        Ok(())
    }

    fn append(&mut self, path: &OsPath, contents: &[u8]) -> Result<(), IoFailure> {
        let bytes = path.to_bytes();
        let file = self.files.get_mut(&bytes).unwrap();
        if self.room.get(&bytes).is_some_and(|room| file.len() + contents.len() > *room) {
            return Err(Disk::failure("No space left on device"));
        }
        file.extend_from_slice(contents);
        Ok(())
    }

    fn write(&mut self, path: &OsPath, contents: Vec<u8>) -> Result<(), IoFailure> {
        self.create(path)?;
        self.append(path, &contents)
    }

    fn read(&self, out: &OsPath, name: &str) -> &[u8] {
        let path = out.join(name.as_bytes());
        &self.files[&path.to_bytes()]
    }
}

/// A stream that gives what it holds, then ends.
struct Stream<'a> {
    data: &'a [u8],
    pos: usize,
}

impl<'a> Stream<'a> {
    fn read_exact(&mut self, n: u64) -> Result<&'a [u8], IoFailure> {
        if n > (self.data.len() - self.pos) as u64 {
            self.pos = self.data.len();
            return Err(IoFailure::end_of_file());
        }
        let bytes = &self.data[self.pos..self.pos + n as usize];
        self.pos += n as usize;
        Ok(bytes)
    }
}

/// Does what a copy from a stream is to do next.
fn do_stream_step<'a>(
    step: StreamStep,
    path: &OsPath,
    stream: &mut Stream<'a>,
    held: &mut &'a [u8],
    disk: &mut Disk,
) -> Result<(), IoFailure> {
    match step {
        StreamStep::Create(_) => disk.create(path),
        StreamStep::Read(n) => stream.read_exact(n).map(|bytes| *held = bytes),
        StreamStep::Write(n) => {
            assert_eq!(held.len() as u64, n);
            disk.append(path, held)
        }
        StreamStep::Skip(n) => stream.read_exact(n).map(|_| ()),
        StreamStep::Flush => Ok(()),
        StreamStep::Done | StreamStep::Broken => unreachable!(),
    }
}

fn run_sequential(
    entries: &[GmaEntry],
    stream: &mut Stream,
    disk: &mut Disk,
) -> Result<(), FastGmadError> {
    let mut state = SequentialWrite::new(entries);
    let mut held: &[u8] = &[];
    while !state.is_over(entries) {
        let path = &entries[state.index].path;
        let outcome = do_stream_step(state.copy.step, path, stream, &mut held, disk);
        write_entries_sequential(&mut state, entries, outcome)?;
    }
    state.finish()
}

/// Lets the writers write until they wait or stop. They finish what they took last first.
fn run_writers(queue: &mut WriteQueue, disk: &mut Disk) -> bool {
    let mut taken = Vec::new();
    let stopped = loop {
        match queue.take() {
            Task::Write(path, buf) => taken.push((path, buf)),
            Task::Wait => break false,
            Task::Stop => break true,
        }
    };
    for (path, buf) in taken.into_iter().rev() {
        let len = buf.len();
        let written = disk.write(&path, buf).is_ok();
        queue.finish(len, written);
    }
    stopped
}

fn run_parallel(
    conf: &ExtractGmaConfig,
    entries: &[GmaEntry],
    stream: &mut Stream,
    disk: &mut Disk,
) -> Result<(), FastGmadError> {
    let limit = conf.max_io_memory_usage.get();
    let mut queue = WriteQueue::new(conf.max_io_memory_usage);
    let mut reader = ParallelRead::new();
    let mut held: &[u8] = &[];
    let mut result = Ok(());
    while !reader.is_over(entries) && result.is_ok() {
        let path = &entries[reader.index].path;
        let event = match reader.step {
            ReaderStep::Ask => ReaderEvent::Ask,
            ReaderStep::Wait => {
                let before = queue.mem_used;
                run_writers(&mut queue, disk);
                assert!(queue.mem_used < before);
                ReaderEvent::Ask
            }
            ReaderStep::Copy(copy) => {
                ReaderEvent::Copied(do_stream_step(copy.step, path, stream, &mut held, disk))
            }
            ReaderStep::Read(n) => {
                let left = (stream.data.len() - stream.pos) as u64;
                let bytes = stream.read_exact(n.min(left)).unwrap();
                ReaderEvent::Read(Ok(bytes.to_vec()))
            }
            ReaderStep::Broken => unreachable!(),
        };
        result = write_entries_parallel(&mut reader, &mut queue, entries, event);
        assert!(queue.mem_used <= limit);
    }
    queue.close();
    while !run_writers(&mut queue, disk) {}
    result?;
    assert_eq!(queue.mem_used, 0);
    queue.result(reader.inline_failed_writes)
}

/// Reads at a position as a file does, no more than `most` bytes at a time.
fn read_at(source: &[u8], position: u64, n: u64, most: usize) -> Result<&[u8], IoFailure> {
    let mut read = ReadAt::new(position, n as usize);
    while !read.is_complete() {
        let left = source.len().saturating_sub(read.position as usize);
        let got = left.min(read.want - read.got).min(most);
        read_exact_at(&mut read, ReadReply::Got(got))?;
    }
    Ok(&source[position as usize..(position + n) as usize])
}

fn run_pool(
    conf: &ExtractGmaConfig,
    path: &OsPath,
    entries: &[GmaEntry],
    source: &[u8],
    disk: &mut Disk,
) -> Result<(), FastGmadError> {
    let threads = conf.max_io_threads.get();
    let mut pool = ExtractPool::new();
    let mut workers = vec![WorkerStep::Open; threads];
    let mut held: Vec<&[u8]> = vec![&[]; threads];
    while workers.iter().any(|worker| *worker != WorkerStep::Stop) {
        for k in 0..threads {
            let event = match workers[k] {
                WorkerStep::Open => WorkerEvent::Opened(Ok(())),
                WorkerStep::Claim => WorkerEvent::Claim,
                WorkerStep::Copy(index, copy) => {
                    let target = &entries[index].path;
                    WorkerEvent::Copied(match copy.step {
                        FileStep::Create => disk.create(target),
                        FileStep::ReadAt(position, n) => {
                            read_at(source, position, n, 700_000).map(|bytes| held[k] = bytes)
                        }
                        FileStep::Write(n) => {
                            assert_eq!(held[k].len() as u64, n);
                            disk.append(target, held[k])
                        }
                        FileStep::Probe(position) => read_at(source, position, 1, 1).map(|_| ()),
                        FileStep::Done | FileStep::Broken => unreachable!(),
                    })
                }
                WorkerStep::Stop => continue,
            };
            extract_entries_parallel(&mut workers[k], &mut pool, path, entries, event);
        }
    }
    pool.result()
}

/// Does what only the system can do of a step, where streams and files have it in common.
fn do_common_step(state: &Extraction, conf: &ExtractGmaConfig, disk: &mut Disk) -> Result<(), IoFailure> {
    let addon_json = conf.out.join(b"addon.json");
    match state.step {
        ExtractStep::CreateOut => disk.create_dir_all(&conf.out),
        ExtractStep::CreateAddonJson => disk.create(&addon_json),
        ExtractStep::WriteAddonJson => disk.append(&addon_json, state.addon_json.as_bytes()),
        ExtractStep::CreateDir(i) => disk.create_dir_all(&state.dirs[i]),
        _ => Ok(()),
    }
}

/// Extracts a stream of which `chunk` bytes come at a time.
fn extract_stream(
    conf: &ExtractGmaConfig,
    data: &[u8],
    chunk: usize,
    disk: &mut Disk,
) -> Result<Extraction, FastGmadError> {
    let mut state = Extraction::of_stream();
    let mut consumed = 0;
    let mut given = 0;
    loop {
        if let ExtractStep::WriteEntries(mode) = state.step {
            let mut stream = Stream { data, pos: consumed };
            match mode {
                WriteMode::Sequential => run_sequential(&state.entries, &mut stream, disk)?,
                WriteMode::Parallel => run_parallel(conf, &state.entries, &mut stream, disk)?,
                WriteMode::Pool => unreachable!(),
            }
            return Ok(state);
        }
        let outcome = do_common_step(&state, conf, disk);
        let mut r = Reader::new(&data[consumed..given], IoFailure::end_of_file());
        match extract_gma(&mut state, conf, &mut r, outcome) {
            Ok(()) => consumed += r.position(),
            Err(_) if r.has_run_out() && given < data.len() => given = data.len().min(given + chunk),
            Err(e) => return Err(e),
        }
    }
}

fn extract_file(
    conf: &ExtractGmaConfig,
    path: &OsPath,
    data: &[u8],
    chunk: usize,
    disk: &mut Disk,
) -> Result<Extraction, FastGmadError> {
    let mut state = Extraction::of_file();
    let mut consumed = 0;
    let mut given = 0;
    loop {
        if let ExtractStep::WriteEntries(mode) = state.step {
            assert_eq!(mode, WriteMode::Pool);
            run_pool(conf, path, &state.entries, data, disk)?;
            return Ok(state);
        }
        let outcome = do_common_step(&state, conf, disk).map(|_| consumed as u64);
        let mut r = Reader::new(&data[consumed..given], IoFailure::end_of_file());
        match extract_gma_file(&mut state, conf, path, &mut r, outcome) {
            Ok(()) => consumed += r.position(),
            Err(_) if r.has_run_out() && given < data.len() => given = data.len().min(given + chunk),
            Err(e) => return Err(e),
        }
    }
}

fn assert_extracted(out: &OsPath, disk: &Disk) {
    assert_eq!(disk.read(out, "lua/test.lua"), b"hello");
    assert_eq!(disk.read(out, "sub/dir/bin.png"), &[1, 2, 3, 4, 5][..]);
    assert_eq!(disk.read(out, "badnames/0.unk"), b"evil");
    assert_eq!(disk.read(out, "badnames/1.unk"), b"duplicate");
    let json = String::from_utf8(disk.read(out, "addon.json").to_vec()).unwrap();
    assert!(json.contains("Test Addon"));
}

#[test]
fn extracts_from_stream() {
    let conf = test_conf("out", 4);
    let mut disk = Disk::new();
    extract_stream(&conf, &build_gma(), 1 << 20, &mut disk).unwrap();
    assert_extracted(&conf.out, &disk);
}

#[test]
fn extracts_from_file() {
    let conf = test_conf("out", 4);
    let gma_path = OsPath::new(Platform::Unix, b"in.gma".to_vec());
    let mut disk = Disk::new();
    extract_file(&conf, &gma_path, &build_gma(), 1 << 20, &mut disk).unwrap();
    assert_extracted(&conf.out, &disk);
}

#[test]
fn rejects_truncated_gma() {
    let mut gma = build_gma();
    gma.truncate(gma.len() - 2);
    let conf = test_conf("out", 4);
    let err = extract_stream(&conf, &gma, 1 << 20, &mut Disk::new()).unwrap_err();
    assert!(err.message().contains("truncated"), "unexpected error: {}", err.message());
}

#[test]
fn windows_device_names_go_to_badnames() {
    let conf = test_conf_on(Platform::Windows, "out", 2);
    let gma = build_gma_from(&[("CON", b"c"), ("settings/nul.txt", b"n"), ("lua/ok.lua", b"ok")]);
    let mut disk = Disk::new();
    extract_stream(&conf, &gma, 1 << 20, &mut disk).unwrap();
    assert_eq!(disk.files[&b"out\\badnames\\0.unk"[..]], b"c");
    assert_eq!(disk.files[&b"out\\badnames\\1.unk"[..]], b"n");
    assert_eq!(disk.read(&conf.out, "lua/ok.lua"), b"ok");
}

#[test]
fn unwritable_entry_keeps_stream_aligned() {
    let conf = test_conf("out", 1);
    let mut disk = Disk::new();
    disk.create_dir_all(&conf.out.join(b"blocker/file.bin")).unwrap();
    let gma = build_gma_from(&[("blocker/file.bin", b"BBBB"), ("after/ok.txt", b"good")]);
    let err = extract_stream(&conf, &gma, 1 << 20, &mut disk).unwrap_err();
    assert!(err.message().contains("failed to write"), "unexpected error: {}", err.message());
    assert_eq!(disk.read(&conf.out, "after/ok.txt"), b"good");
}

#[test]
fn zero_size_entries_in_sequential_mode() {
    let conf = test_conf("out", 1);
    let gma = build_gma_from(&[("a/empty.bin", b""), ("b/data.bin", b"payload"), ("c/empty2", b"")]);
    let mut disk = Disk::new();
    extract_stream(&conf, &gma, 1 << 20, &mut disk).unwrap();
    assert_eq!(disk.read(&conf.out, "a/empty.bin").len(), 0);
    assert_eq!(disk.read(&conf.out, "b/data.bin"), b"payload");
    assert_eq!(disk.read(&conf.out, "c/empty2").len(), 0);
}

struct XorShift(u64);

impl XorShift {
    fn next(&mut self) -> u64 {
        let mut x = self.0;
        x ^= x << 13;
        x ^= x >> 7;
        x ^= x << 17;
        self.0 = x;
        x
    }

    fn below(&mut self, n: u64) -> u64 {
        self.next() % n
    }
}

fn fnv1a(bytes: &[u8]) -> u64 {
    let mut hash: u64 = 0xcbf29ce484222325;
    for &byte in bytes {
        hash ^= byte as u64;
        hash = hash.wrapping_mul(0x100000001b3);
    }
    hash
}

const KIB: u64 = 1024;
const MIB: u64 = 1024 * 1024;

#[test]
fn randomized_roundtrip_of_60_gmas() {
    let mut rng = XorShift(0x9E3779B97F4A7C15);
    let mut total_gma_bytes = 0u64;

    for gma_index in 0..60u64 {
        let unit = (rng.below(10_000)) as f64 / 10_000.0;
        let total_size = (400.0 * KIB as f64
            + (90.0 * MIB as f64 - 400.0 * KIB as f64) * unit * unit * unit * unit)
            .round() as u64;
        let entry_count = 1 + rng.below(8) as usize;
        let base = total_size / entry_count as u64;

        let mut lens: Vec<u64> = Vec::with_capacity(entry_count);
        let mut remaining = total_size;
        for i in 0..entry_count {
            let len = if i + 1 == entry_count {
                remaining
            } else if rng.below(10) == 0 {
                0
            } else {
                base / 2 + rng.below(base / 2 + 1)
            };
            lens.push(len);
            remaining -= len;
        }

        let mut names: Vec<String> = Vec::with_capacity(entry_count);
        for i in 0..entry_count {
            let (dir, ext) = [
                ("maps", "bsp"),
                ("lua/autorun", "lua"),
                ("materials/models", "vtf"),
                ("sound/weapons", "wav"),
                ("data", "json"),
            ][rng.below(5) as usize];
            names.push(format!("{dir}/fuzz_{gma_index}_{i}.{ext}"));
        }
        let has_evil = rng.below(6) == 0;

        let mut data = vec![0u8; total_size as usize];
        for chunk in data.chunks_mut(8) {
            let bytes = rng.next().to_le_bytes();
            chunk.copy_from_slice(&bytes[..chunk.len()]);
        }

        let mut gma = Vec::new();
        gma.extend_from_slice(b"GMAD");
        gma.push(3);
        gma.extend_from_slice(&0u64.to_le_bytes());
        gma.extend_from_slice(&0u64.to_le_bytes());
        gma.push(0);
        push_nul(&mut gma, "Fuzz Addon");
        push_nul(&mut gma, "{}");
        push_nul(&mut gma, "fuzzer");
        gma.extend_from_slice(&0u32.to_le_bytes());
        for (i, name) in names.iter().enumerate() {
            gma.extend_from_slice(&(i as u32 + 1).to_le_bytes());
            push_nul(&mut gma, name);
            gma.extend_from_slice(&lens[i].to_le_bytes());
            gma.extend_from_slice(&0u32.to_le_bytes());
        }
        if has_evil {
            gma.extend_from_slice(&(names.len() as u32 + 1).to_le_bytes());
            push_nul(&mut gma, "../fuzz_evil.bin");
            gma.extend_from_slice(&7u64.to_le_bytes());
            gma.extend_from_slice(&0u32.to_le_bytes());
        }
        gma.extend_from_slice(&0u32.to_le_bytes());
        gma.extend_from_slice(&data);
        if has_evil {
            gma.extend_from_slice(b"badname");
        }
        total_gma_bytes += gma.len() as u64;

        let conf = test_conf(&format!("out_{gma_index}"), 4);
        let mut disk = Disk::new();
        if gma_index % 2 == 0 {
            let gma_path = OsPath::new(Platform::Unix, format!("fuzz_{gma_index}.gma").into_bytes());
            extract_file(&conf, &gma_path, &gma, 1 << 20, &mut disk).unwrap();
        } else {
            extract_stream(&conf, &gma, 1 << 20, &mut disk).unwrap();
        }

        let mut offset = 0u64;
        for (i, name) in names.iter().enumerate() {
            let bytes = disk.read(&conf.out, name);
            assert_eq!(bytes.len() as u64, lens[i], "wrong size for {name} in GMA {gma_index}");
            let expected = fnv1a(&data[offset as usize..(offset + lens[i]) as usize]);
            assert_eq!(fnv1a(bytes), expected, "wrong content for {name} in GMA {gma_index}");
            offset += lens[i];
        }
        if has_evil {
            let bytes = disk.read(&conf.out, "badnames/0.unk");
            assert_eq!(bytes, b"badname", "wrong badnames content in GMA {gma_index}");
        }
    }

    println!("randomized roundtrip: 60 GMAs, {total_gma_bytes} GMA bytes total");
}

#[test]
fn extracts_a_stream_that_comes_byte_by_byte() {
    for threads in [1, 2] {
        let conf = test_conf("out", threads);
        let mut disk = Disk::new();
        let state = extract_stream(&conf, &build_gma(), 1, &mut disk).unwrap();
        assert_extracted(&conf.out, &disk);
        assert_eq!(state.summary(), "Extracted 4 entries (23.00 bytes)");
    }
}

#[test]
fn extracts_a_file_that_comes_byte_by_byte() {
    let conf = test_conf("out", 3);
    let gma_path = OsPath::new(Platform::Unix, b"in.gma".to_vec());
    let mut disk = Disk::new();
    let state = extract_file(&conf, &gma_path, &build_gma(), 1, &mut disk).unwrap();
    assert_extracted(&conf.out, &disk);
    assert_eq!(state.summary(), "Extracted 4 entries (23.00 bytes)");
}

#[test]
fn every_truncation_is_noticed() {
    let gma = build_gma();
    let gma_path = OsPath::new(Platform::Unix, b"in.gma".to_vec());
    for len in 0..gma.len() {
        for threads in [1, 4] {
            let conf = test_conf("out", threads);
            let error = extract_stream(&conf, &gma[..len], 1 << 20, &mut Disk::new()).unwrap_err();
            assert!(error.message().contains("truncated"), "{len}: {}", error.message());
            let error = extract_file(&conf, &gma_path, &gma[..len], 1 << 20, &mut Disk::new()).unwrap_err();
            assert!(error.message().contains("truncated"), "{len}: {}", error.message());
        }
    }
}

#[test]
fn entries_larger_than_the_memory_are_copied_as_they_come() {
    let mut conf = test_conf("out", 4);
    for limit in [1, 4, 5, 9, 12] {
        conf.max_io_memory_usage = NonZeroUsize::new(limit).unwrap();
        let mut disk = Disk::new();
        extract_stream(&conf, &build_gma(), 1 << 20, &mut disk).unwrap();
        assert_extracted(&conf.out, &disk);
    }
}

#[test]
fn unwritable_entries_are_counted_in_every_mode() {
    let gma = build_gma_from(&[("x/one", b"1"), ("y/two", b"22"), ("z/three", b"333"), ("w", b"4444")]);
    let gma_path = OsPath::new(Platform::Unix, b"in.gma".to_vec());
    for threads in [1, 4] {
        for limit in [2, 1 << 20] {
            let mut conf = test_conf("out", threads);
            conf.max_io_memory_usage = NonZeroUsize::new(limit).unwrap();
            let mut disk = Disk::new();
            disk.create_dir_all(&conf.out.join(b"x/one")).unwrap();
            disk.create_dir_all(&conf.out.join(b"z/three")).unwrap();
            let error = extract_stream(&conf, &gma, 1 << 20, &mut disk).unwrap_err();
            assert_eq!(error.message(), "extracting GMA entries: 2 files failed to write");
            assert_eq!(disk.read(&conf.out, "y/two"), b"22");
            assert_eq!(disk.read(&conf.out, "w"), b"4444");
        }
    }
    let conf = test_conf("out", 4);
    let mut disk = Disk::new();
    disk.create_dir_all(&conf.out.join(b"w")).unwrap();
    let error = extract_file(&conf, &gma_path, &gma, 1 << 20, &mut disk).unwrap_err();
    assert_eq!(error.message(), "extracting GMA entries: 1 files failed to write");
    assert_eq!(disk.read(&conf.out, "z/three"), b"333");
}

#[test]
fn a_truncated_file_is_noticed_though_nothing_can_be_written() {
    let gma = build_gma_from(&[("x/one", b"1"), ("y/two", b"22")]);
    let gma_path = OsPath::new(Platform::Unix, b"in.gma".to_vec());
    for (cut, expected) in [
        (0, "extracting GMA entries: 2 files failed to write"),
        (1, "GMA is truncated, entry \"out/y/two\" is cut short"),
        (2, "GMA is truncated, entry \"out/y/two\" is cut short"),
        (3, "GMA is truncated, entry \"out/x/one\" is cut short"),
    ] {
        let conf = test_conf("out", 1);
        let mut disk = Disk::new();
        disk.create_dir_all(&conf.out.join(b"x/one")).unwrap();
        disk.create_dir_all(&conf.out.join(b"y/two")).unwrap();
        let data = &gma[..gma.len() - cut];
        let error = extract_file(&conf, &gma_path, data, 1 << 20, &mut disk).unwrap_err();
        assert_eq!(error.message(), expected);
        let error = extract_stream(&conf, data, 1 << 20, &mut disk).unwrap_err();
        assert_eq!(error.message(), expected);
    }
}

#[test]
fn a_place_is_not_given_twice() {
    let conf = test_conf("out", 2);
    let gma = build_gma_from(&[("../x", b"unsafe"), ("badnames/0.unk", b"named")]);
    let mut disk = Disk::new();
    extract_stream(&conf, &gma, 1 << 20, &mut disk).unwrap();
    assert_eq!(disk.read(&conf.out, "badnames/0.unk"), b"unsafe");
    assert_eq!(disk.read(&conf.out, "badnames/1.unk"), b"named");

    let gma = build_gma_from(&[("badnames/0.unk", b"named"), ("../x", b"unsafe"), ("", b"empty")]);
    let mut disk = Disk::new();
    extract_stream(&conf, &gma, 1 << 20, &mut disk).unwrap();
    assert_eq!(disk.read(&conf.out, "badnames/0.unk"), b"named");
    assert_eq!(disk.read(&conf.out, "badnames/1.unk"), b"unsafe");
    assert_eq!(disk.read(&conf.out, "badnames/2.unk"), b"empty");
}

#[test]
fn folders_that_cannot_be_created_are_errors() {
    let gma = build_gma_from(&[("a/b", b"1")]);
    let conf = test_conf("out", 1);
    let mut disk = Disk::new();
    disk.files.insert(b"out".to_vec(), Vec::new());
    let error = extract_stream(&conf, &gma, 1 << 20, &mut disk).unwrap_err();
    assert_eq!(error.message(), "creating output directory \"out\": Not a directory");

    let mut disk = Disk::new();
    disk.files.insert(b"out/a".to_vec(), Vec::new());
    let error = extract_stream(&conf, &gma, 1 << 20, &mut disk).unwrap_err();
    assert_eq!(error.message(), "creating directory \"out/a\": Not a directory");

    let mut disk = Disk::new();
    disk.dirs.insert(b"out/addon.json".to_vec());
    let error = extract_stream(&conf, &gma, 1 << 20, &mut disk).unwrap_err();
    assert_eq!(error.message(), "creating addon.json \"out/addon.json\": Is a directory");
}

#[test]
fn steps_that_fail_tell_what_was_being_done() {
    let conf = test_conf("out", 1);
    let path = OsPath::new(Platform::Unix, b"in.gma".to_vec());
    let failure = || IoFailure { unexpected_eof: false, message: "Gone".to_string() };
    let gma = build_gma();
    let message = |step| {
        let mut state = Extraction::of_file();
        state.step = step;
        let mut r = Reader::new(&gma, IoFailure::end_of_file());
        extract_gma_file(&mut state, &conf, &path, &mut r, Err(failure())).unwrap_err().message()
    };
    assert_eq!(message(ExtractStep::Open), "opening GMA file \"in.gma\": Gone");
    assert_eq!(message(ExtractStep::WriteAddonJson), "writing addon.json \"out/addon.json\": Gone");
    assert_eq!(message(ExtractStep::Locate), "locating GMA data block \"in.gma\": Gone");
}

#[test]
fn one_thread_writes_a_stream_in_order() {
    let empty = build_gma_from(&[]);
    for (threads, expected) in [(1, WriteMode::Sequential), (2, WriteMode::Parallel)] {
        let conf = test_conf("out", threads);
        let state = extract_stream(&conf, &empty, 1 << 20, &mut Disk::new()).unwrap();
        assert_eq!(state.step, ExtractStep::WriteEntries(expected));
        assert_eq!(state.summary(), "Extracted 0 entries (0.00 bytes)");
    }
}

#[test]
fn an_index_too_far_in_the_file_is_refused() {
    let conf = test_conf("out", 1);
    let path = OsPath::new(Platform::Unix, b"in.gma".to_vec());
    let mut gma = b"\x01\0\0\0a\0".to_vec();
    gma.extend_from_slice(&u64::MAX.to_le_bytes());
    gma.extend_from_slice(&[0; 4]);
    gma.extend_from_slice(b"\x02\0\0\0b\0");
    gma.extend_from_slice(&[0; 16]);
    let mut state = Extraction::of_file();
    state.step = ExtractStep::ReadIndex;
    let mut r = Reader::new(&gma, IoFailure::end_of_file());
    extract_gma_file(&mut state, &conf, &path, &mut r, Ok(0)).unwrap();
    assert_eq!(state.step, ExtractStep::Locate);
    let error = extract_gma_file(&mut state, &conf, &path, &mut r, Ok(53)).unwrap_err();
    assert_eq!(error.message(), "GMA file index is too large");
}

#[test]
fn nothing_is_written_outside_the_output_folder() {
    let names = [
        "../a", "/b", "c/../../d", "..", "", "e/..", "./../f", "C:\\g", "\\h", "..\\i", "j/./k", "l//m", "com1",
        "n/nul", "badnames/0.unk",
    ];
    let entries: Vec<(&str, &[u8])> = names.iter().map(|name| (*name, name.as_bytes())).collect();
    for platform in [Platform::Unix, Platform::MacOs, Platform::Windows] {
        for threads in [1, 2] {
            let conf = test_conf_on(platform, "out", threads);
            let mut disk = Disk::new();
            let _ = extract_stream(&conf, &build_gma_from(&entries), 1 << 20, &mut disk);
            assert!(disk.files.len() > 10);
            for path in disk.files.keys() {
                let pieces = platform.split(path);
                assert_eq!(pieces[0], b"out");
                assert!(!pieces.contains(&b"..".to_vec()));
            }
        }
    }
}

/// What is extracted in every way there is: what each came to, and what was on the disk then.
fn extract_in_every_way(
    data: &[u8],
    out: &str,
    blocked: &[&str],
) -> Vec<(Result<(), String>, HashMap<Vec<u8>, Vec<u8>>)> {
    let gma_path = OsPath::new(Platform::Unix, b"in.gma".to_vec());
    let mut found = Vec::new();
    for threads in [1, 2, 5] {
        for limit in [1, 4, 1 << 20] {
            let mut conf = test_conf(out, threads);
            conf.max_io_memory_usage = NonZeroUsize::new(limit).unwrap();
            for from_file in [false, true] {
                let mut disk = Disk::new();
                for name in blocked {
                    disk.create_dir_all(&conf.out.join(name.as_bytes())).unwrap();
                }
                let result = if from_file {
                    extract_file(&conf, &gma_path, data, 64, &mut disk)
                } else {
                    extract_stream(&conf, data, 64, &mut disk)
                };
                found.push((result.map(|_| ()).map_err(|e| e.message()), disk.files));
            }
        }
    }
    found
}

#[test]
fn exactly_what_was_packed_is_on_the_disk() {
    let packed: [(&str, &[u8]); 5] =
        [("lua/a.lua", b"first"), ("b", b""), ("lua/c/d.txt", b"longer contents"), ("E", b"x"), ("e", b"y")];
    let mut expected: HashMap<Vec<u8>, Vec<u8>> =
        packed.iter().map(|(name, contents)| (format!("out/{name}").into_bytes(), contents.to_vec())).collect();
    expected.insert(b"out/addon.json".to_vec(), b"{\n  \"title\": \"Test Addon\"\n}".to_vec());
    for (result, files) in extract_in_every_way(&build_gma_from(&packed), "out", &[]) {
        assert_eq!(result, Ok(()));
        assert_eq!(files, expected);
    }
}

#[test]
fn every_way_of_extracting_comes_to_the_same() {
    let gma = build_gma();
    let all = extract_in_every_way(&gma, "out", &[]);
    assert!(all.iter().all(|found| *found == all[0]));
    assert_eq!(all[0].0, Ok(()));

    let blocked = extract_in_every_way(&gma, "out", &["lua/test.lua", "badnames/1.unk"]);
    assert!(blocked.iter().all(|found| *found == blocked[0]));
    assert_eq!(blocked[0].0, Err("extracting GMA entries: 2 files failed to write".to_string()));
    assert_eq!(blocked[0].1[&b"out/badnames/0.unk".to_vec()], b"evil");

    for (result, _) in extract_in_every_way(&gma[..gma.len() - 1], "out", &[]) {
        assert_eq!(
            result,
            Err("GMA is truncated, entry \"out/badnames/1.unk\" is cut short".to_string()),
        );
    }
}

#[test]
fn files_lie_the_same_below_any_output_folder() {
    let gma = build_gma();
    let one = &extract_in_every_way(&gma, "one", &[])[0].1;
    let other = &extract_in_every_way(&gma, "far/away", &[])[1].1;
    assert_eq!(one.len(), other.len());
    for (path, contents) in one {
        let moved = [b"far/away", path.strip_prefix(b"one").unwrap()].concat();
        assert_eq!(&other[&moved], contents);
    }
}

#[test]
fn files_that_fail_while_they_are_written_are_counted_in_every_mode() {
    let large = vec![7; (5 << 20) / 2];
    let gma = build_gma_from(&[("a", b"before"), ("large", &large), ("b", b"x"), ("small", b"yz"), ("c", b"after")]);
    let gma_path = OsPath::new(Platform::Unix, b"in.gma".to_vec());
    for cut in [0, 1] {
        let data = &gma[..gma.len() - cut];
        let expected = if cut == 0 {
            "extracting GMA entries: 2 files failed to write"
        } else {
            "GMA is truncated, entry \"out/c\" is cut short"
        };
        for threads in [1, 3] {
            for limit in [1, 4, 8 << 20] {
                for from_file in [false, true] {
                    let mut conf = test_conf("out", threads);
                    conf.max_io_memory_usage = NonZeroUsize::new(limit).unwrap();
                    let mut disk = Disk::new();
                    disk.room.insert(b"out/large".to_vec(), 1 << 20);
                    disk.room.insert(b"out/small".to_vec(), 1);
                    let result = if from_file {
                        extract_file(&conf, &gma_path, data, 1 << 20, &mut disk)
                    } else {
                        extract_stream(&conf, data, 1 << 20, &mut disk)
                    };
                    assert_eq!(result.unwrap_err().message(), expected);
                    if cut == 0 {
                        assert_eq!(disk.read(&conf.out, "a"), b"before");
                        assert_eq!(disk.read(&conf.out, "b"), b"x");
                        assert_eq!(disk.read(&conf.out, "c"), b"after");
                        assert!(disk.read(&conf.out, "large").len() < large.len());
                    }
                }
            }
        }
    }
}
