//! What is packed into an archive is what is extracted.

use vstd::prelude::*;

use crate::copy_laws::StreamWorld;
use crate::header::{HeaderView, GMA_MAGIC, GMA_VERSION};
use crate::index::{EntryView, RawEntry};
use crate::parallel::{Fate, ParallelEvent, ParallelJob};
use crate::path::{PathView, Platform};
use crate::pool::{PoolJob, WorkerEvent};
use crate::queue::Queued;
use crate::reader::Parsed;

verus! {

/// Whether the bytes of `data` from `pos` on are `bytes`, and maybe more.
pub open spec fn holds_at(data: Seq<u8>, pos: int, bytes: Seq<u8>) -> bool {
    &&& 0 <= pos
    &&& pos + bytes.len() <= data.len()
    &&& data.subrange(pos, pos + bytes.len()) == bytes
}

/// What holds two byte strings one behind the other holds each in its place.
proof fn lemma_split(data: Seq<u8>, pos: int, a: Seq<u8>, b: Seq<u8>)
    requires
        holds_at(data, pos, a + b),
    ensures
        holds_at(data, pos, a),
        holds_at(data, pos + a.len(), b),
{
    let here = data.subrange(pos, pos + (a + b).len());
    assert(here.subrange(0, a.len() as int) =~= a);
    assert(here.subrange(a.len() as int, (a + b).len() as int) =~= b);
    assert(data.subrange(pos, pos + a.len()) =~= here.subrange(0, a.len() as int));
    assert(data.subrange(pos + a.len(), pos + a.len() + b.len()) =~= here.subrange(
        a.len() as int,
        (a + b).len() as int,
    ));
}

/// A string that lies at `pos`, with its NUL, is found there.
proof fn lemma_string_at(data: Seq<u8>, pos: int, text: Seq<u8>)
    requires
        crate::format_laws::is_plain(text),
        holds_at(data, pos, crate::format_laws::nul_bytes(text)),
    ensures
        crate::reader::nul_from(data, pos) == Some(pos + text.len()),
        data.subrange(pos, pos + text.len()) == text,
{
    crate::format_laws::lemma_nul_at(data, pos, text);
}

/// What the head of an archive says.
pub struct ArchiveHead {
    pub version: u8,
    /// SteamID and timestamp.
    pub stamp: Seq<u8>,
    /// The content that the addon requires.
    pub required: Seq<Seq<u8>>,
    pub title: Seq<u8>,
    pub addon_json: Seq<u8>,
    pub author: Seq<u8>,
    pub addon_version: Seq<u8>,
}

impl ArchiveHead {
    /// The version is one that can be read, numbers have their sizes, and no string holds a NUL.
    pub open spec fn valid(self) -> bool {
        &&& self.version <= GMA_VERSION
        &&& self.stamp.len() == 16
        &&& forall|i: int|
            0 <= i < self.required.len() ==> (#[trigger] self.required[i]).len() > 0
                && crate::format_laws::is_plain(self.required[i])
        &&& crate::format_laws::is_plain(self.title)
        &&& crate::format_laws::is_plain(self.addon_json)
        &&& crate::format_laws::is_plain(self.author)
        &&& self.addon_version.len() == 4
    }

    /// The head as it is written.
    pub open spec fn bytes(self) -> Seq<u8> {
        GMA_MAGIC@ + (seq![self.version] + (self.stamp + (self.required_part() + self.addon_part())))
    }

    /// The part with the required content, which is there from version 2 on.
    pub open spec fn required_part(self) -> Seq<u8> {
        if self.version > 1 {
            required_bytes(self.required)
        } else {
            Seq::empty()
        }
    }

    /// The part with the addon's own strings.
    pub open spec fn addon_part(self) -> Seq<u8> {
        crate::format_laws::nul_bytes(self.title) + (crate::format_laws::nul_bytes(self.addon_json)
            + (crate::format_laws::nul_bytes(self.author) + self.addon_version))
    }
}

/// A list of required content as it is written: its strings, then an empty one.
pub open spec fn required_bytes(required: Seq<Seq<u8>>) -> Seq<u8>
    decreases required.len(),
{
    if required.len() == 0 {
        crate::format_laws::nul_bytes(Seq::empty())
    } else {
        crate::format_laws::nul_bytes(required[0]) + required_bytes(required.drop_first())
    }
}

/// The end of a list of required content is found.
proof fn lemma_required_at(data: Seq<u8>, pos: int, required: Seq<Seq<u8>>)
    requires
        holds_at(data, pos, required_bytes(required)),
        forall|i: int|
            0 <= i < required.len() ==> (#[trigger] required[i]).len() > 0
                && crate::format_laws::is_plain(required[i]),
    ensures
        crate::header::past_required(data, pos) == Some(pos + required_bytes(required).len()),
    decreases required.len(),
{
    if required.len() == 0 {
        lemma_string_at(data, pos, Seq::empty());
    } else {
        let rest = required.drop_first();
        lemma_split(
            data,
            pos,
            crate::format_laws::nul_bytes(required[0]),
            required_bytes(rest),
        );
        lemma_string_at(data, pos, required[0]);
        assert forall|i: int| 0 <= i < rest.len() implies (#[trigger] rest[i]).len() > 0
            && crate::format_laws::is_plain(rest[i]) by {
            assert(rest[i] == required[i + 1]);
        }
        lemma_required_at(data, pos + required[0].len() + 1, rest);
    }
}

/// The addon's own strings are read as they were written.
proof fn lemma_addon_at(data: Seq<u8>, pos: int, head: ArchiveHead)
    requires
        head.valid(),
        holds_at(data, pos, head.addon_part()),
    ensures
        crate::header::addon(data, pos) == Parsed::Done(
            HeaderView { title: head.title, addon_json: head.addon_json },
            pos + head.addon_part().len(),
        ),
{
    let title = crate::format_laws::nul_bytes(head.title);
    let json = crate::format_laws::nul_bytes(head.addon_json);
    let author = crate::format_laws::nul_bytes(head.author);
    lemma_split(data, pos, title, json + (author + head.addon_version));
    lemma_string_at(data, pos, head.title);
    let json_pos = pos + head.title.len() + 1;
    lemma_split(data, json_pos, json, author + head.addon_version);
    lemma_string_at(data, json_pos, head.addon_json);
    let author_pos = json_pos + head.addon_json.len() + 1;
    lemma_split(data, author_pos, author, head.addon_version);
    lemma_string_at(data, author_pos, head.author);
}

/// A head that is written is read again as it was.
pub proof fn law_head_round_trip(data: Seq<u8>, pos: int, head: ArchiveHead)
    requires
        head.valid(),
        holds_at(data, pos, head.bytes()),
    ensures
        crate::header::header(data, pos) == Parsed::Done(
            HeaderView { title: head.title, addon_json: head.addon_json },
            pos + head.bytes().len(),
        ),
{
    let rest = head.required_part() + head.addon_part();
    lemma_split(data, pos, GMA_MAGIC@, seq![head.version] + (head.stamp + rest));
    lemma_split(data, pos + 4, seq![head.version], head.stamp + rest);
    assert(data[pos + 4] == data.subrange(pos + 4, pos + 5)[0]);
    lemma_split(data, pos + 5, head.stamp, rest);
    lemma_split(data, pos + 21, head.required_part(), head.addon_part());
    if head.version > 1 {
        lemma_required_at(data, pos + 21, head.required);
    }
    lemma_addon_at(data, pos + 21 + head.required_part().len(), head);
}

/// A file that is packed.
pub struct PackedFile {
    /// Its number in the index.
    pub id: nat,
    pub name: Seq<u8>,
    pub contents: Seq<u8>,
    pub checksum: Seq<u8>,
}

impl PackedFile {
    /// Numbers have their sizes, the file's own is not zero, and the name holds no NUL.
    pub open spec fn valid(self) -> bool {
        &&& 0 < self.id <= u32::MAX
        &&& crate::format_laws::is_plain(self.name)
        &&& self.contents.len() <= u64::MAX
        &&& self.checksum.len() == 4
    }

    /// The record of the file in the index.
    pub open spec fn record(self) -> Seq<u8> {
        crate::format_laws::le_bytes(self.id, 4) + (crate::format_laws::nul_bytes(self.name) + (
        crate::format_laws::le_bytes(self.contents.len(), 8) + self.checksum))
    }

    /// What the index tells of the file.
    pub open spec fn listed(self) -> RawEntry {
        RawEntry { name: self.name, size: self.contents.len() }
    }
}

/// The index as it is written: a record for each file, then the number zero.
pub open spec fn index_bytes(files: Seq<PackedFile>) -> Seq<u8>
    decreases files.len(),
{
    if files.len() == 0 {
        crate::format_laws::le_bytes(0, 4)
    } else {
        files[0].record() + index_bytes(files.drop_first())
    }
}

/// The contents of the files, one behind the other.
pub open spec fn contents_bytes(files: Seq<PackedFile>) -> Seq<u8>
    decreases files.len(),
{
    if files.len() == 0 {
        Seq::empty()
    } else {
        contents_bytes(files.drop_last()) + files.last().contents
    }
}

/// What the index tells of the files.
pub open spec fn listing(files: Seq<PackedFile>) -> Seq<RawEntry> {
    files.map_values(|f: PackedFile| f.listed())
}

/// Sizes may as well be added up from the front.
pub proof fn lemma_total_from_front(raw: Seq<RawEntry>)
    requires
        raw.len() > 0,
    ensures
        crate::index::total(raw) == raw[0].size + crate::index::total(raw.drop_first()),
    decreases raw.len(),
{
    if raw.len() > 1 {
        lemma_total_from_front(raw.drop_last());
        assert(raw.drop_first().drop_last() =~= raw.drop_last().drop_first());
    } else {
        assert(raw.drop_last() =~= Seq::empty());
        assert(raw.drop_first() =~= Seq::empty());
    }
}

/// The record of a file is read as it was written.
proof fn lemma_record_at(data: Seq<u8>, pos: int, file: PackedFile)
    requires
        file.valid(),
        holds_at(data, pos, file.record()),
    ensures
        file.record().len() == file.name.len() + 17,
        crate::reader::le_value(data.subrange(pos, pos + 4)) == file.id,
        crate::reader::nul_from(data, pos + 4) == Some(pos + 4 + file.name.len()),
        data.subrange(pos + 4, pos + 4 + file.name.len()) == file.name,
        crate::reader::le_value(
            data.subrange(pos + 5 + file.name.len(), pos + 13 + file.name.len()),
        ) == file.contents.len(),
{
    let id = crate::format_laws::le_bytes(file.id, 4);
    let name = crate::format_laws::nul_bytes(file.name);
    let size = crate::format_laws::le_bytes(file.contents.len(), 8);
    crate::format_laws::lemma_le_ranges();
    crate::format_laws::law_numbers_round_trip(file.id, 4);
    crate::format_laws::law_numbers_round_trip(file.contents.len(), 8);
    lemma_split(data, pos, id, name + (size + file.checksum));
    lemma_split(data, pos + 4, name, size + file.checksum);
    lemma_string_at(data, pos + 4, file.name);
    lemma_split(data, pos + 5 + file.name.len(), size, file.checksum);
}

/// An index that is written is read again as it was; unless the sizes, with `offset` before them,
/// add up to more than a 64-bit number, which is found out.
pub proof fn law_index_round_trip(data: Seq<u8>, pos: int, offset: nat, files: Seq<PackedFile>)
    requires
        forall|i: int| 0 <= i < files.len() ==> (#[trigger] files[i]).valid(),
        holds_at(data, pos, index_bytes(files)),
    ensures
        crate::index::index_from(data, pos, offset) == if offset + crate::index::total(
            listing(files),
        ) <= u64::MAX || files.len() == 0 {
            Parsed::Done(listing(files), pos + index_bytes(files).len())
        } else {
            Parsed::Fault("file index is too large"@)
        },
    decreases files.len(),
{
    crate::format_laws::lemma_le_ranges();
    if files.len() == 0 {
        crate::format_laws::law_numbers_round_trip(0, 4);
        assert(listing(files) =~= Seq::empty());
    } else {
        let file = files[0];
        let rest = files.drop_first();
        lemma_split(data, pos, file.record(), index_bytes(rest));
        lemma_record_at(data, pos, file);
        assert forall|i: int| 0 <= i < rest.len() implies (#[trigger] rest[i]).valid() by {
            assert(rest[i] == files[i + 1]);
        }
        lemma_total_from_front(listing(files));
        assert(listing(files).drop_first() =~= listing(rest));
        assert(seq![file.listed()] + listing(rest) =~= listing(files));
        if offset + file.contents.len() <= u64::MAX {
            law_index_round_trip(
                data,
                pos + file.name.len() + 17,
                offset + file.contents.len(),
                rest,
            );
        }
    }
}

/// An archive as it is written: head, index, and the contents of the files.
pub open spec fn archive_bytes(head: ArchiveHead, files: Seq<PackedFile>) -> Seq<u8> {
    head.bytes() + (index_bytes(files) + contents_bytes(files))
}

/// Whether an archive of these files can be written and read.
pub open spec fn can_be_packed(head: ArchiveHead, files: Seq<PackedFile>) -> bool {
    &&& head.valid()
    &&& forall|i: int| 0 <= i < files.len() ==> (#[trigger] files[i]).valid()
    &&& contents_bytes(files).len() <= u64::MAX
}

/// The contents are as long as the index tells.
pub proof fn lemma_contents_len(files: Seq<PackedFile>)
    ensures
        contents_bytes(files).len() == crate::index::total(listing(files)),
    decreases files.len(),
{
    if files.len() > 0 {
        lemma_contents_len(files.drop_last());
        assert(listing(files).drop_last() =~= listing(files.drop_last()));
    } else {
        assert(listing(files) =~= Seq::empty());
    }
}

/// The contents of a file lie behind those of the files before.
proof fn lemma_contents_at(files: Seq<PackedFile>, i: int)
    requires
        0 <= i < files.len(),
    ensures
        holds_at(
            contents_bytes(files),
            contents_bytes(files.take(i)).len() as int,
            files[i].contents,
        ),
    decreases files.len(),
{
    let front = files.drop_last();
    let all = contents_bytes(files);
    if i < files.len() - 1 {
        lemma_contents_at(front, i);
        assert(front.take(i) =~= files.take(i));
        let start = contents_bytes(files.take(i)).len() as int;
        assert(all.subrange(start, start + files[i].contents.len()) =~= contents_bytes(
            front,
        ).subrange(start, start + files[i].contents.len()));
    } else {
        assert(files.take(i) =~= front);
        let start = contents_bytes(front).len() as int;
        assert(all.subrange(start, start + files[i].contents.len()) =~= files[i].contents);
    }
}

/// What is packed is read again as it was: title and description, the names and sizes of the files
/// in their order, and behind the index, at the offset that each entry is given, its contents.
pub proof fn law_archive_round_trip(head: ArchiveHead, files: Seq<PackedFile>, out: PathView)
    requires
        can_be_packed(head, files),
    ensures
        ({
            let data = archive_bytes(head, files);
            let head_end = head.bytes().len() as int;
            let start = head_end + index_bytes(files).len();
            &&& crate::header::header(data, 0) == Parsed::Done(
                HeaderView { title: head.title, addon_json: head.addon_json },
                head_end,
            )
            &&& crate::index::index_from(data, head_end, 0) == Parsed::Done(listing(files), start)
            &&& data.len() == start + contents_bytes(files).len()
            &&& forall|i: int|
                0 <= i < files.len() ==> {
                    let entry = #[trigger] crate::index::placed(out, listing(files))[i];
                    &&& entry.name == files[i].name
                    &&& entry.size == files[i].contents.len()
                    &&& holds_at(data, start + entry.offset, files[i].contents)
                }
        }),
{
    let data = archive_bytes(head, files);
    let head_end = head.bytes().len() as int;
    let start = head_end + index_bytes(files).len();
    assert(data.subrange(0, data.len() as int) =~= data);
    lemma_split(data, 0, head.bytes(), index_bytes(files) + contents_bytes(files));
    lemma_split(data, head_end, index_bytes(files), contents_bytes(files));
    law_head_round_trip(data, 0, head);
    lemma_contents_len(files);
    law_index_round_trip(data, head_end, 0, files);
    assert forall|i: int| 0 <= i < files.len() implies ({
        let entry = #[trigger] crate::index::placed(out, listing(files))[i];
        &&& entry.name == files[i].name
        &&& entry.size == files[i].contents.len()
        &&& holds_at(data, start + entry.offset, files[i].contents)
    }) by {
        let raw = listing(files);
        crate::place_laws::lemma_placed_at(out, raw, i);
        lemma_contents_len(files.take(i));
        assert(raw.take(i) =~= listing(files.take(i)));
        lemma_contents_at(files, i);
        let entry = crate::index::placed(out, raw)[i];
        let contents = contents_bytes(files);
        assert(data.subrange(start, start + contents.len()) == contents);
        assert(data.subrange(
            start + entry.offset,
            start + entry.offset + files[i].contents.len(),
        ) =~= contents.subrange(
            entry.offset as int,
            (entry.offset + files[i].contents.len()) as int,
        ));
    }
}

/// How many bytes the contents of each of the files are.
pub open spec fn packed_sizes(files: Seq<PackedFile>) -> Seq<u64> {
    files.map_values(|f: PackedFile| f.contents.len() as u64)
}

/// The archive as a stream that has been read up to the end of the index.
pub open spec fn stream_behind_index(head: ArchiveHead, files: Seq<PackedFile>) -> StreamWorld {
    StreamWorld {
        stream: archive_bytes(head, files),
        pos: (head.bytes().len() + index_bytes(files).len()) as int,
        held: Seq::empty(),
        file: Seq::empty(),
    }
}

/// Where the contents of a file start is told by the sizes of those before.
pub proof fn lemma_sum_first_is_total(files: Seq<PackedFile>, i: int)
    requires
        0 <= i <= files.len(),
        forall|k: int| 0 <= k < files.len() ==> (#[trigger] files[k]).valid(),
    ensures
        crate::sequential::sum_first(packed_sizes(files), i) == crate::index::total(
            listing(files).take(i),
        ),
    decreases i,
{
    if i > 0 {
        lemma_sum_first_is_total(files, i - 1);
        assert(listing(files).take(i).drop_last() =~= listing(files).take(i - 1));
        assert(files[i - 1].valid());
    } else {
        assert(listing(files).take(0) =~= Seq::empty());
    }
}

/// Some output folder: where it is makes no difference to the contents.
spec fn somewhere() -> PathView {
    PathView { platform: Platform::Unix, root: Seq::empty(), parts: Seq::empty() }
}

/// The contents of an entry, as they follow in the stream, are those of the file that was packed.
pub proof fn lemma_stream_contents(head: ArchiveHead, files: Seq<PackedFile>, i: int)
    requires
        can_be_packed(head, files),
        0 <= i < files.len(),
    ensures
        crate::sequential::contents_at(
            packed_sizes(files),
            stream_behind_index(head, files),
            i,
        ) == files[i].contents,
{
    let out = somewhere();
    law_archive_round_trip(head, files, out);
    crate::place_laws::lemma_placed_at(out, listing(files), i);
    lemma_sum_first_is_total(files, i);
    assert(files[i].valid());
    let entry = crate::index::placed(out, listing(files))[i];
    assert(entry.offset == crate::sequential::sum_first(packed_sizes(files), i));
}

/// Extracting the contents of a stream one entry after the other: if every entry comes to its end
/// and none is counted as not written, each file holds what was packed.
pub proof fn law_sequential_extraction(
    head: ArchiveHead,
    files: Seq<PackedFile>,
    outcomes: Seq<bool>,
)
    requires
        can_be_packed(head, files),
        files.len() <= usize::MAX,
        ({
            let sizes = packed_sizes(files);
            let start = stream_behind_index(head, files);
            let (state, _) = crate::sequential::sequential_run(sizes, start, outcomes);
            &&& crate::sequential::sequential_run_possible(sizes, start, outcomes)
            &&& state.index == files.len()
            &&& state.failed_writes == 0
        }),
    ensures
        crate::sequential::sequential_run(
            packed_sizes(files),
            stream_behind_index(head, files),
            outcomes,
        ).1.files == files.map_values(|f: PackedFile| Some(f.contents)),
{
    let sizes = packed_sizes(files);
    let start = stream_behind_index(head, files);
    law_archive_round_trip(head, files, somewhere());
    crate::sequential::law_sequential_write_complete(sizes, start, outcomes);
    let written = crate::sequential::sequential_run(sizes, start, outcomes).1.files;
    assert forall|i: int| 0 <= i < files.len() implies written[i] == Some(
        #[trigger] files[i].contents,
    ) by {
        lemma_stream_contents(head, files, i);
        assert(written[i] == Some(crate::sequential::contents_at(sizes, start, i)));
    }
    assert(written =~= files.map_values(|f: PackedFile| Some(f.contents)));
}

/// What there is to do when the contents of a stream are extracted by several writers.
pub open spec fn parallel_job(
    head: ArchiveHead,
    files: Seq<PackedFile>,
    out: PathView,
    limit: nat,
) -> ParallelJob {
    ParallelJob {
        paths: crate::index::placed(out, listing(files)).map_values(|e: EntryView| e.path),
        sizes: packed_sizes(files),
        limit,
        start: stream_behind_index(head, files),
    }
}

/// What is queued for an entry is what was packed.
proof fn lemma_parallel_items(
    head: ArchiveHead,
    files: Seq<PackedFile>,
    out: PathView,
    limit: nat,
)
    requires
        can_be_packed(head, files),
        files.len() <= usize::MAX,
    ensures
        parallel_job(head, files, out, limit).valid(),
        forall|i: int|
            0 <= i < files.len() ==> #[trigger] parallel_job(head, files, out, limit).item(i) == (
            Queued {
                path: crate::index::placed(out, listing(files))[i].path,
                contents: files[i].contents,
            }),
{
    law_archive_round_trip(head, files, out);
    crate::index::lemma_placed_total(out, listing(files));
    let job = parallel_job(head, files, out, limit);
    assert forall|i: int| 0 <= i < files.len() implies #[trigger] job.item(i) == (Queued {
        path: crate::index::placed(out, listing(files))[i].path,
        contents: files[i].contents,
    }) by {
        lemma_stream_contents(head, files, i);
    }
}

/// Extracting the contents of a stream by several writers: if every entry was read, the writers
/// have nothing left to write and none is counted as not written, then what was packed was written
/// to the place of its entry by a writer, or, where it does not fit into memory, by the reader.
pub proof fn law_parallel_extraction(
    head: ArchiveHead,
    files: Seq<PackedFile>,
    out: PathView,
    limit: nat,
    events: Seq<ParallelEvent>,
)
    requires
        can_be_packed(head, files),
        files.len() <= usize::MAX,
        ({
            let job = parallel_job(head, files, out, limit);
            let world = crate::parallel::parallel_run(job, events);
            &&& crate::parallel::parallel_run_possible(job, events)
            &&& world.reader.index == files.len()
            &&& world.reader.step is Ask
            &&& world.shared.state.queue.len() == 0
            &&& world.shared.writing.len() == 0
            &&& world.reader.inline_failed_writes + world.shared.state.failed_writes == 0
        }),
    ensures
        ({
            let world = crate::parallel::parallel_run(
                parallel_job(head, files, out, limit),
                events,
            );
            forall|i: int|
                0 <= i < files.len() ==> if (#[trigger] files[i]).contents.len() <= limit {
                    world.shared.written.contains(
                        (Queued {
                            path: crate::index::placed(out, listing(files))[i].path,
                            contents: files[i].contents,
                        }),
                    )
                } else {
                    world.fates[i] == Fate::Copied(files[i].contents)
                }
        }),
{
    broadcast use vstd::seq_lib::group_to_multiset_ensures;

    let job = parallel_job(head, files, out, limit);
    let world = crate::parallel::parallel_run(job, events);
    lemma_parallel_items(head, files, out, limit);
    crate::parallel::law_parallel_write_complete(job, events);
    let all = job.items(job.sizes.len() as int);
    assert forall|i: int| 0 <= i < files.len() implies if (#[trigger] files[i]).contents.len()
        <= limit {
        world.shared.written.contains(
            (Queued {
                path: crate::index::placed(out, listing(files))[i].path,
                contents: files[i].contents,
            }),
        )
    } else {
        world.fates[i] == Fate::Copied(files[i].contents)
    } by {
        assert(files[i].valid());
        assert(job.item(i).contents == files[i].contents);
        if files[i].contents.len() <= limit {
            crate::engine_laws::lemma_entry_is_item(job, job.sizes.len() as int, i);
            assert(all.to_multiset().count(job.item(i)) > 0);
            assert(world.shared.written.to_multiset().count(job.item(i)) > 0);
        } else {
            assert(job.sizes[i] > job.limit);
        }
    }
}

/// What there is to do when the contents of a file are extracted by several workers.
pub open spec fn pool_job(
    head: ArchiveHead,
    files: Seq<PackedFile>,
    out: PathView,
    gma_path: PathView,
) -> PoolJob {
    let start = head.bytes().len() + index_bytes(files).len();
    PoolJob {
        entries: crate::index::placed(out, listing(files)).map_values(
            |e: EntryView| crate::index::shifted(e, start),
        ),
        gma_path,
        source: archive_bytes(head, files),
    }
}

/// Extracting the contents of a file by several workers: if they all stop and nothing could not be
/// read or written, each file holds what was packed.
pub proof fn law_pool_extraction(
    head: ArchiveHead,
    files: Seq<PackedFile>,
    out: PathView,
    gma_path: PathView,
    threads: nat,
    events: Seq<(int, WorkerEvent)>,
)
    requires
        can_be_packed(head, files),
        files.len() <= usize::MAX,
        archive_bytes(head, files).len() <= u64::MAX,
        threads > 0,
        ({
            let job = pool_job(head, files, out, gma_path);
            let world = crate::pool::pool_run(job, threads, events);
            &&& crate::pool::pool_run_possible(job, threads, events)
            &&& forall|k: int| 0 <= k < threads ==> (#[trigger] world.workers[k]) is Stop
            &&& world.pool.read_error is None
            &&& world.pool.failed_writes == 0
        }),
    ensures
        crate::pool::pool_run(
            pool_job(head, files, out, gma_path),
            threads,
            events,
        ).files == Map::new(|i: int| 0 <= i < files.len(), |i: int| files[i].contents),
{
    let job = pool_job(head, files, out, gma_path);
    law_archive_round_trip(head, files, out);
    crate::index::lemma_placed_total(out, listing(files));
    assert forall|i: int| 0 <= i < job.entries.len() implies (#[trigger] job.entries[i]).offset
        <= u64::MAX && job.entries[i].size <= u64::MAX && job.contents(i) == files[i].contents by {
        let entry = crate::index::placed(out, listing(files))[i];
        assert(entry.size == files[i].contents.len());
        if entry.size == 0 {
            assert(files[i].contents =~= Seq::empty());
        }
    }
    crate::pool::law_pool_write_complete(job, threads, events);
    assert(crate::pool::pool_run(job, threads, events).files =~= Map::new(
        |i: int| 0 <= i < files.len(),
        |i: int| files[i].contents,
    ));
}

/// An archive that is cut off within the contents of its files is noticed: the stream cannot give
/// all of them.
pub proof fn law_cut_off_contents_are_noticed(
    head: ArchiveHead,
    files: Seq<PackedFile>,
    len: int,
    outcomes: Seq<bool>,
)
    requires
        can_be_packed(head, files),
        files.len() <= usize::MAX,
        stream_behind_index(head, files).pos <= len < archive_bytes(head, files).len(),
        crate::sequential::sequential_run_possible(
            packed_sizes(files),
            StreamWorld {
                stream: archive_bytes(head, files).take(len),
                ..stream_behind_index(head, files)
            },
            outcomes,
        ),
    ensures
        crate::sequential::sequential_run(
            packed_sizes(files),
            StreamWorld {
                stream: archive_bytes(head, files).take(len),
                ..stream_behind_index(head, files)
            },
            outcomes,
        ).0.index < files.len(),
{
    let sizes = packed_sizes(files);
    let start = StreamWorld {
        stream: archive_bytes(head, files).take(len),
        ..stream_behind_index(head, files)
    };
    law_archive_round_trip(head, files, somewhere());
    crate::sequential::law_sequential_write(sizes, start, outcomes);
    lemma_sum_first_is_total(files, files.len() as int);
    lemma_contents_len(files);
    assert(listing(files).take(files.len() as int) =~= listing(files));
}

} // verus!
