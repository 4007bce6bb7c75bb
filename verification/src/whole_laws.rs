//! Extractions from their first step to the files that they leave.

use vstd::prelude::*;
use vstd::string::*;

use crate::archive_laws::{ArchiveHead, PackedFile};
use crate::conf::ConfigView;
use crate::disk_laws::Disk;
use crate::header::HeaderView;
use crate::parallel::ParallelEvent;
use crate::path::{PathView, Platform};
use crate::pool::WorkerEvent;
use crate::step_laws::Moment;

verus! {

/// Whether two names lead to one place: they walk through the same names, where those may differ in case
/// if that makes no other file.
pub open spec fn lead_to_one_place(platform: Platform, a: Seq<u8>, b: Seq<u8>) -> bool {
    let (x, y) = (platform.names(a), platform.names(b));
    &&& x.len() == y.len()
    &&& forall|k: int| 0 <= k < x.len() ==> are_one_name(platform, #[trigger] x[k], y[k])
}

/// Whether two names are the same, in small letters if case makes no difference.
pub open spec fn are_one_name(platform: Platform, a: Seq<u8>, b: Seq<u8>) -> bool {
    &&& a.len() == b.len()
    &&& forall|i: int|
        0 <= i < a.len() ==> #[trigger] a[i] == b[i] || (!(platform is Unix) && ((0x41 <= a[i]
            <= 0x5a && b[i] == a[i] + 0x20) || (0x41 <= b[i] <= 0x5a && a[i] == b[i] + 0x20)))
}

/// Whether the files can all go by their names: each name is good, no two count as the same or lead
/// to one place, and none leads to that of `addon.json`.
pub open spec fn have_good_names(platform: Platform, files: Seq<PackedFile>) -> bool {
    &&& forall|i: int|
        0 <= i < files.len() ==> {
            let name = (#[trigger] files[i]).name;
            &&& crate::name_laws::is_good(platform, name)
            &&& !lead_to_one_place(platform, name, "addon.json".spec_bytes())
        }
    &&& forall|i: int, j: int|
        0 <= i < j < files.len() ==> {
            let a = (#[trigger] files[i]).name;
            let b = (#[trigger] files[j]).name;
            &&& crate::name_laws::key_of(platform, a) != crate::name_laws::key_of(platform, b)
            &&& !lead_to_one_place(platform, a, b)
        }
}

/// Whether no name holds a slash.
spec fn hold_no_slash(names: Seq<Seq<u8>>) -> bool {
    forall|k: int, i: int|
        0 <= k < names.len() && 0 <= i < names[k].len() ==> #[trigger] names[k][i] != 0x2f
}

/// Texts that are the same in small letters are the same up to case.
proof fn lemma_folded_alike(platform: Platform, a: Seq<u8>, b: Seq<u8>)
    requires
        crate::names::folded(platform, a) == crate::names::folded(platform, b),
    ensures
        are_one_name(platform, a, b),
{
    let (x, y) = (crate::names::folded(platform, a), crate::names::folded(platform, b));
    assert(x.len() == a.len() && y.len() == b.len());
    assert forall|i: int| 0 <= i < a.len() implies #[trigger] a[i] == b[i] || (!(platform is Unix)
        && ((0x41 <= a[i] <= 0x5a && b[i] == a[i] + 0x20) || (0x41 <= b[i] <= 0x5a && a[i] == b[i]
        + 0x20))) by {
        assert(x[i] == y[i]);
        if !(platform is Unix) {
            assert(x[i] == crate::names::small(a[i]));
            assert(y[i] == crate::names::small(b[i]));
        }
    }
}

/// Names one behind the other are the same up to case only if the names are.
proof fn lemma_joined_alike(platform: Platform, x: Seq<Seq<u8>>, y: Seq<Seq<u8>>)
    requires
        x.len() > 0,
        y.len() > 0,
        hold_no_slash(x),
        hold_no_slash(y),
        are_one_name(platform, crate::names::joined(x), crate::names::joined(y)),
    ensures
        x.len() == y.len(),
        forall|k: int| 0 <= k < x.len() ==> are_one_name(platform, #[trigger] x[k], y[k]),
    decreases x.len(),
{
    let (a, b) = (crate::names::joined(x), crate::names::joined(y));
    assert forall|i: int| 0 <= i < a.len() implies (#[trigger] a[i] == 0x2f <==> b[i] == 0x2f) by {}
    if x.len() == 1 && y.len() > 1 {
        let p = crate::names::joined(y.drop_last()).len() as int;
        assert(b[p] == 0x2f);
        assert(a[p] == x[0][p]);
    } else if y.len() == 1 && x.len() > 1 {
        let p = crate::names::joined(x.drop_last()).len() as int;
        assert(a[p] == 0x2f);
        assert(b[p] == y[0][p]);
    } else if x.len() > 1 {
        let (c, d) = (crate::names::joined(x.drop_last()), crate::names::joined(y.drop_last()));
        let (p, q) = (c.len() as int, d.len() as int);
        let (m, n) = (x.len() - 1, y.len() - 1);
        assert(a =~= c.push(0x2f) + x[m]);
        assert(b =~= d.push(0x2f) + y[n]);
        assert(a[p] == 0x2f && b[q] == 0x2f);
        if p < q {
            assert(a[q] == x[m][q - p - 1]);
        }
        if q < p {
            assert(b[p] == y[n][p - q - 1]);
        }
        assert(are_one_name(platform, c, d)) by {
            assert forall|i: int| 0 <= i < c.len() implies #[trigger] c[i] == d[i] || (!(platform
                is Unix) && ((0x41 <= c[i] <= 0x5a && d[i] == c[i] + 0x20) || (0x41 <= d[i] <= 0x5a
                && c[i] == d[i] + 0x20))) by {
                assert(a[i] == c[i] && b[i] == d[i]);
            }
        }
        let (last, other) = (x[m], y[n]);
        assert(are_one_name(platform, last, other)) by {
            assert forall|i: int| 0 <= i < last.len() implies #[trigger] last[i] == other[i] || (!(
            platform is Unix) && ((0x41 <= last[i] <= 0x5a && other[i] == last[i] + 0x20) || (0x41
                <= other[i] <= 0x5a && last[i] == other[i] + 0x20))) by {
                assert(a[p + 1 + i] == last[i] && b[p + 1 + i] == other[i]);
            }
        }
        let (front, back) = (x.drop_last(), y.drop_last());
        assert(hold_no_slash(front)) by {
            assert forall|k: int, i: int|
                0 <= k < front.len() && 0 <= i < front[k].len() implies #[trigger] front[k][i]
                != 0x2f by {
                assert(front[k][i] == x[k][i]);
            }
        }
        assert(hold_no_slash(back)) by {
            assert forall|k: int, i: int|
                0 <= k < back.len() && 0 <= i < back[k].len() implies #[trigger] back[k][i]
                != 0x2f by {
                assert(back[k][i] == y[k][i]);
            }
        }
        lemma_joined_alike(platform, front, back);
        assert forall|k: int| 0 <= k < x.len() implies are_one_name(
            platform,
            #[trigger] x[k],
            y[k],
        ) by {
            if k < m {
                assert(front[k] == x[k] && back[k] == y[k]);
            }
        }
    }
}

/// Names of which each is not empty make no empty text, and no names make one.
proof fn lemma_joined_empty(names: Seq<Seq<u8>>)
    requires
        forall|k: int| 0 <= k < names.len() ==> (#[trigger] names[k]).len() > 0,
    ensures
        crate::names::joined(names).len() == 0 <==> names.len() == 0,
{
    if names.len() > 0 {
        assert(names[0].len() > 0);
    }
}

/// Names that stand for one place lead there.
proof fn lemma_one_place(platform: Platform, a: Seq<u8>, b: Seq<u8>)
    requires
        crate::disk_laws::stands_for(platform, a) == crate::disk_laws::stands_for(platform, b),
    ensures
        lead_to_one_place(platform, a, b),
{
    let (x, y) = (platform.names(a), platform.names(b));
    crate::name_laws::lemma_names_are_proper(platform, a);
    crate::name_laws::lemma_names_are_proper(platform, b);
    lemma_joined_empty(x);
    lemma_joined_empty(y);
    lemma_folded_alike(platform, crate::names::joined(x), crate::names::joined(y));
    assert(hold_no_slash(x)) by {
        assert forall|k: int, i: int| 0 <= k < x.len() && 0 <= i < x[k].len() implies #[trigger] x[k][i]
            != 0x2f by {
            assert(!crate::name_laws::is_break(platform, x[k][i]));
        }
    }
    assert(hold_no_slash(y)) by {
        assert forall|k: int, i: int| 0 <= k < y.len() && 0 <= i < y[k].len() implies #[trigger] y[k][i]
            != 0x2f by {
            assert(!crate::name_laws::is_break(platform, y[k][i]));
        }
    }
    if x.len() > 0 && y.len() > 0 {
        lemma_joined_alike(platform, x, y);
    }
}

/// Files with good names go by them.
proof fn lemma_good_names(platform: Platform, files: Seq<PackedFile>)
    requires
        have_good_names(platform, files),
    ensures
        crate::disk_laws::go_by_their_names(platform, files),
{
    let addon_json = "addon.json".spec_bytes();
    assert forall|i: int| 0 <= i < files.len() implies {
        let name = (#[trigger] files[i]).name;
        &&& crate::name_laws::is_good(platform, name)
        &&& crate::disk_laws::stands_for(platform, name) != crate::disk_laws::stands_for(
            platform,
            addon_json,
        )
    } by {
        let name = files[i].name;
        if crate::disk_laws::stands_for(platform, name) == crate::disk_laws::stands_for(
            platform,
            addon_json,
        ) {
            lemma_one_place(platform, name, addon_json);
        }
    }
    assert forall|i: int, j: int| 0 <= i < j < files.len() implies {
        let a = (#[trigger] files[i]).name;
        let b = (#[trigger] files[j]).name;
        &&& crate::name_laws::key_of(platform, a) != crate::name_laws::key_of(platform, b)
        &&& crate::disk_laws::stands_for(platform, a) != crate::disk_laws::stands_for(platform, b)
    } by {
        let (a, b) = (files[i].name, files[j].name);
        if crate::disk_laws::stands_for(platform, a) == crate::disk_laws::stands_for(platform, b) {
            lemma_one_place(platform, a, b);
        }
    }
}

/// The files that cannot be written because the folder that they lie in was not created in `run`.
pub open spec fn without_folder(run: Seq<Moment>) -> Set<PathView> {
    Set::new(
        |path: PathView|
            path.parent() matches Some(folder) && !crate::step_laws::is_created(
                run,
                run.len() - 1,
                folder.key(),
            ),
    )
}

/// What the extraction of a stream knows of its archive when the contents are to be written.
proof fn lemma_stream_knows(run: Seq<Moment>, config: ConfigView, data: Seq<u8>)
    requires
        crate::step_laws::stream_works(run, config),
        run[0].r.data == data,
        run[0].r.pos == 0,
        run.last().state.step is WriteEntries,
    ensures
        run.len() >= 6,
        crate::disk_laws::head_error(data) is None,
        run.last().state.addon_json == crate::extract::addon_json_of(
            crate::header::header(data, 0)->Done_0,
        ),
        run.last().state.entries == crate::index::placed(
            config.out,
            crate::disk_laws::listed(data),
        ),
        run[5].r.pos == crate::disk_laws::contents_start(data),
{
    let n = run.len() - 1;
    crate::step_laws::law_stream_steps(run, config, n);
    crate::step_laws::law_stream_steps(run, config, 0);
    crate::step_laws::law_stream_steps(run, config, 1);
    crate::step_laws::law_stream_steps(run, config, 2);
    crate::step_laws::law_stream_steps(run, config, 3);
    crate::step_laws::law_stream_steps(run, config, 4);
    crate::step_laws::law_stream_steps(run, config, 5);
    assert(crate::step_laws::stream_step_works(run, config, 0));
    assert(crate::step_laws::stream_step_works(run, config, 1));
    assert(crate::step_laws::stream_step_works(run, config, 2));
    assert(crate::step_laws::stream_step_works(run, config, 3));
    assert(crate::step_laws::stream_step_works(run, config, 4));
}

/// What the extraction of a file knows of its archive when the contents are to be written.
proof fn lemma_file_knows(
    run: Seq<Moment>,
    config: ConfigView,
    path: PathView,
    data_start: u64,
    data: Seq<u8>,
)
    requires
        crate::step_laws::file_works(run, config, path, data_start),
        run[0].r.data == data,
        run[0].r.pos == 0,
        run.last().state.step is WriteEntries,
    ensures
        run.len() >= 8,
        crate::disk_laws::head_error(data) is None,
        run.last().state.addon_json == crate::extract::addon_json_of(
            crate::header::header(data, 0)->Done_0,
        ),
        run[6].r.pos == crate::disk_laws::contents_start(data),
        run[6].state.entries == crate::index::placed(config.out, crate::disk_laws::listed(data)),
        run.last().state.entries.len() == run[6].state.entries.len(),
        forall|i: int|
            0 <= i < run[6].state.entries.len() ==> (#[trigger] run.last().state.entries[i]).path
                == run[6].state.entries[i].path,
{
    let n = run.len() - 1;
    crate::step_laws::law_file_steps(run, config, path, data_start, n);
    crate::step_laws::law_file_steps(run, config, path, data_start, 1);
    crate::step_laws::law_file_steps(run, config, path, data_start, 2);
    crate::step_laws::law_file_steps(run, config, path, data_start, 3);
    crate::step_laws::law_file_steps(run, config, path, data_start, 4);
    crate::step_laws::law_file_steps(run, config, path, data_start, 5);
    crate::step_laws::law_file_steps(run, config, path, data_start, 6);
    crate::step_laws::law_file_steps(run, config, path, data_start, 7);
    assert(crate::step_laws::file_step_works(run, config, path, data_start, 0));
    assert(crate::step_laws::file_step_works(run, config, path, data_start, 1));
    assert(crate::step_laws::file_step_works(run, config, path, data_start, 2));
    assert(crate::step_laws::file_step_works(run, config, path, data_start, 3));
    assert(crate::step_laws::file_step_works(run, config, path, data_start, 4));
    assert(crate::step_laws::file_step_works(run, config, path, data_start, 5));
    assert(crate::step_laws::file_step_works(run, config, path, data_start, 6));
}

/// Whether what the state of an extraction says of the archive is right, and each of the files lies in
/// a folder that was created.
spec fn is_right(
    run: Seq<Moment>,
    head: ArchiveHead,
    files: Seq<PackedFile>,
    out: PathView,
) -> bool {
    &&& run.last().state.addon_json == crate::extract::addon_json_of(
        HeaderView { title: head.title, addon_json: head.addon_json },
    )
    &&& forall|i: int|
        0 <= i < files.len() ==> {
            let path = out.join((#[trigger] files[i]).name);
            &&& run.last().state.entries[i].path == path
            &&& !without_folder(run).contains(path)
        }
}

/// Where the contents of a packed archive start, and where its files go.
proof fn lemma_packed(head: ArchiveHead, files: Seq<PackedFile>, out: PathView)
    requires
        crate::archive_laws::can_be_packed(head, files),
        have_good_names(out.platform, files),
    ensures
        ({
            let data = crate::archive_laws::archive_bytes(head, files);
            let entries = crate::index::placed(out, crate::disk_laws::listed(data));
            &&& crate::header::header(data, 0)->Done_0 == (HeaderView {
                title: head.title,
                addon_json: head.addon_json,
            })
            &&& entries.len() == files.len()
            &&& forall|i: int|
                0 <= i < files.len() ==> entries[i].path == out.join((#[trigger] files[i]).name)
        }),
{
    let data = crate::archive_laws::archive_bytes(head, files);
    let raw = crate::archive_laws::listing(files);
    lemma_good_names(out.platform, files);
    crate::archive_laws::law_archive_round_trip(head, files, out);
    assert(crate::disk_laws::listed(data) == raw);
    crate::index::lemma_placed_total(out, raw);
    assert forall|i: int| 0 <= i < files.len() implies crate::index::placed(out, raw)[i].path
        == out.join((#[trigger] files[i]).name) by {
        crate::disk_laws::lemma_packed_places(out, files, i);
    }
}

/// The files of a stream lie in folders that were created.
proof fn lemma_stream_is_right(
    head: ArchiveHead,
    files: Seq<PackedFile>,
    config: ConfigView,
    run: Seq<Moment>,
)
    requires
        crate::archive_laws::can_be_packed(head, files),
        have_good_names(config.out.platform, files),
        crate::step_laws::stream_works(run, config),
        run.last().state.step is WriteEntries,
        run[0].r.data == crate::archive_laws::archive_bytes(head, files),
        run[0].r.pos == 0,
    ensures
        run.len() >= 6,
        is_right(run, head, files, config.out),
        run[5].r.pos == crate::disk_laws::contents_start(
            crate::archive_laws::archive_bytes(head, files),
        ),
{
    let data = crate::archive_laws::archive_bytes(head, files);
    let n = run.len() - 1;
    lemma_packed(head, files, config.out);
    lemma_stream_knows(run, config, data);
    crate::step_laws::law_stream_creates_folders(run, config, n);
    assert forall|i: int| 0 <= i < files.len() implies {
        let path = config.out.join((#[trigger] files[i]).name);
        &&& run.last().state.entries[i].path == path
        &&& !without_folder(run).contains(path)
    } by {
        assert(run[n].state.entries[i].path == config.out.join(files[i].name));
    }
}

/// The files of a file lie in folders that were created.
proof fn lemma_file_is_right(
    head: ArchiveHead,
    files: Seq<PackedFile>,
    config: ConfigView,
    gma_path: PathView,
    data_start: u64,
    run: Seq<Moment>,
)
    requires
        crate::archive_laws::can_be_packed(head, files),
        have_good_names(config.out.platform, files),
        crate::step_laws::file_works(run, config, gma_path, data_start),
        run.last().state.step is WriteEntries,
        run[0].r.data == crate::archive_laws::archive_bytes(head, files),
        run[0].r.pos == 0,
    ensures
        run.len() >= 8,
        is_right(run, head, files, config.out),
        run[6].r.pos == crate::disk_laws::contents_start(
            crate::archive_laws::archive_bytes(head, files),
        ),
{
    let data = crate::archive_laws::archive_bytes(head, files);
    let n = run.len() - 1;
    lemma_packed(head, files, config.out);
    lemma_file_knows(run, config, gma_path, data_start, data);
    crate::step_laws::law_file_creates_folders(run, config, gma_path, data_start, n);
    assert forall|i: int| 0 <= i < files.len() implies {
        let path = config.out.join((#[trigger] files[i]).name);
        &&& run.last().state.entries[i].path == path
        &&& !without_folder(run).contains(path)
    } by {
        assert(run.last().state.entries[i].path == run[6].state.entries[i].path);
        assert(run[n].state.entries[i].path == config.out.join(files[i].name));
    }
}

/// The whole of an extraction, step by step, from the bytes of an archive to the files on the disk,
/// where a file can only be written in a folder that was created: if the files that were packed have
/// good names, and every step of the extraction works, be it of a stream or of a file, then the
/// contents are written, whatever the limits of memory and threads, without an error, and the disk
/// holds exactly the files that were packed, each under its name in the output folder, and an
/// `addon.json`, besides what it held before.
pub proof fn law_whole_extraction(
    head: ArchiveHead,
    files: Seq<PackedFile>,
    config: ConfigView,
    before: Disk,
    stream_run: Seq<Moment>,
    outcomes: Seq<bool>,
    events: Seq<ParallelEvent>,
    gma_path: PathView,
    file_run: Seq<Moment>,
    data_start: u64,
    work: Seq<(int, WorkerEvent)>,
)
    requires
        crate::archive_laws::can_be_packed(head, files),
        files.len() <= usize::MAX,
        crate::archive_laws::archive_bytes(head, files).len() <= u64::MAX,
        have_good_names(config.out.platform, files),
        config.max_io_threads > 0,
        crate::step_laws::stream_works(stream_run, config),
        stream_run.last().state.step is WriteEntries,
        crate::step_laws::file_works(file_run, config, gma_path, data_start),
        file_run.last().state.step is WriteEntries,
        ({
            let data = crate::archive_laws::archive_bytes(head, files);
            let stream = crate::disk_laws::stream_of(
                data,
                config.out,
                config.max_io_memory_usage,
            );
            let file = crate::disk_laws::file_of(data, config.out, gma_path);
            &&& stream_run[0].r.data == data && stream_run[0].r.pos == 0
            &&& file_run[0].r.data == data && file_run[0].r.pos == 0
            &&& crate::engine_laws::sequential_run_true(
                stream.paths,
                stream.sizes,
                stream.start,
                without_folder(stream_run),
                outcomes,
            )
            &&& crate::parallel::parallel_run_possible(stream, events)
            &&& crate::engine_laws::parallel_run_true(stream, without_folder(stream_run), events)
            &&& crate::pool::pool_run_possible(file, config.max_io_threads, work)
            &&& crate::disk_laws::pool_run_true(
                file,
                without_folder(file_run),
                config.max_io_threads,
                work,
            )
        }),
    ensures
        ({
            let data = crate::archive_laws::archive_bytes(head, files);
            let stream = crate::disk_laws::stream_of(
                data,
                config.out,
                config.max_io_memory_usage,
            );
            let file = crate::disk_laws::file_of(data, config.out, gma_path);
            let text = crate::extract::addon_json_of(
                HeaderView { title: head.title, addon_json: head.addon_json },
            );
            let disk = before.insert(
                config.out.join("addon.json".spec_bytes()).names(),
                vstd::utf8::encode_utf8(text),
            );
            let (one, one_world) = crate::sequential::sequential_run(
                stream.sizes,
                stream.start,
                outcomes,
            );
            let many = crate::parallel::parallel_run(stream, events);
            let pool = crate::pool::pool_run(file, config.max_io_threads, work);
            &&& stream_run.last().state.addon_json == text
            &&& file_run.last().state.addon_json == text
            &&& stream_run[5].r.pos == stream.start.pos
            &&& file_run[6].r.pos == stream.start.pos
            &&& forall|i: int|
                0 <= i < files.len() ==> {
                    let path = config.out.join((#[trigger] files[i]).name);
                    &&& stream_run.last().state.entries[i].path == path
                    &&& file_run.last().state.entries[i].path == path
                }
            &&& crate::engine_laws::sequential_end(stream.paths, stream.sizes, one) matches Some(
                result,
            ) ==> result is None && crate::disk_laws::holds_exactly(
                before,
                crate::disk_laws::disk_with(
                    disk,
                    crate::engine_laws::sequential_files(stream.paths, one_world),
                ),
                config.out,
                files,
                text,
            )
            &&& crate::engine_laws::parallel_end(stream, many) matches Some(result) ==> result is None
                && crate::disk_laws::holds_exactly(
                before,
                crate::disk_laws::disk_with(
                    disk,
                    crate::engine_laws::parallel_files(stream, many),
                ),
                config.out,
                files,
                text,
            )
            &&& crate::disk_laws::pool_end(pool) matches Some(result) ==> result is None
                && crate::disk_laws::holds_exactly(
                before,
                crate::disk_laws::disk_with(disk, crate::disk_laws::pool_files(file, pool)),
                config.out,
                files,
                text,
            )
        }),
{
    lemma_good_names(config.out.platform, files);
    lemma_packed(head, files, config.out);
    lemma_stream_is_right(head, files, config, stream_run);
    lemma_file_is_right(head, files, config, gma_path, data_start, file_run);
    crate::disk_laws::lemma_extraction(
        head,
        files,
        config,
        before,
        without_folder(stream_run),
        without_folder(file_run),
        outcomes,
        events,
        gma_path,
        work,
    );
    crate::archive_laws::law_archive_round_trip(head, files, config.out);
}

} // verus!
