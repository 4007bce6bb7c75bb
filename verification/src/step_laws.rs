//! The order of the steps of an extraction, and what each leaves behind.

use vstd::prelude::*;
use vstd::string::*;

use crate::conf::ConfigView;
use crate::error::{ContextView, ErrorView, FastGmadError, IoFailure, KindView};
use crate::extract::{ExtractStep, ExtractionView, WriteMode};
use crate::index::EntryView;
use crate::path::{PathKeyView, PathView};
use crate::reader::{Parsed, ReaderView};

verus! {

/// How far an extraction is, and how far its archive is read.
pub struct Moment {
    pub state: ExtractionView,
    pub r: ReaderView,
}

/// Whether the step from the `i`th moment of the extraction of a stream to the next one works.
pub open spec fn stream_step_works(run: Seq<Moment>, config: ConfigView, i: int) -> bool {
    crate::extract::stream_goes_on(
        run[i].state,
        run[i + 1].state,
        config,
        run[i].r,
        run[i + 1].r,
        Ok::<(), IoFailure>(()),
        Ok::<(), FastGmadError>(()),
    )
}

/// Whether `run` is the extraction of a stream from its start on, and each of its steps works.
pub open spec fn stream_works(run: Seq<Moment>, config: ConfigView) -> bool {
    &&& run.len() > 0
    &&& run[0].state.step == ExtractStep::ReadHeader
    &&& forall|i: int| 0 <= i < run.len() ==> (#[trigger] run[i]).state.valid()
    &&& forall|i: int| 0 <= i < run.len() - 1 ==> #[trigger] stream_step_works(run, config, i)
}

/// Whether the step from the `i`th moment of the extraction of the file at `path` to the next one
/// works, where `data_start` is told if it is asked where the contents of the entries start.
pub open spec fn file_step_works(
    run: Seq<Moment>,
    config: ConfigView,
    path: PathView,
    data_start: u64,
    i: int,
) -> bool {
    crate::extract::file_goes_on(
        run[i].state,
        run[i + 1].state,
        config,
        path,
        run[i].r,
        run[i + 1].r,
        Ok::<u64, IoFailure>(data_start),
        Ok::<(), FastGmadError>(()),
    )
}

/// Whether `run` is the extraction of the file at `path` from its start on, and each of its steps
/// works; `data_start` is what is told of where the contents of the entries start.
pub open spec fn file_works(
    run: Seq<Moment>,
    config: ConfigView,
    path: PathView,
    data_start: u64,
) -> bool {
    &&& run.len() > 0
    &&& run[0].state.step == ExtractStep::Open
    &&& forall|i: int| 0 <= i < run.len() ==> (#[trigger] run[i]).state.valid()
    &&& forall|i: int|
        0 <= i < run.len() - 1 ==> #[trigger] file_step_works(run, config, path, data_start, i)
}

/// Whether what is known of the archive is the same in both states.
pub open spec fn knows_the_same(a: ExtractionView, b: ExtractionView) -> bool {
    a.addon_json == b.addon_json && a.entries == b.entries && a.dirs == b.dirs
}

/// Whether `folder` is one of `dirs`, however it is spelled.
pub open spec fn is_listed(dirs: Seq<PathView>, folder: PathView) -> bool {
    exists|d: int| 0 <= d < dirs.len() && (#[trigger] dirs[d]).key() == folder.key()
}

/// Whether `dir` is the folder that one of `entries` lies in.
pub open spec fn is_needed(entries: Seq<EntryView>, dir: PathView) -> bool {
    exists|e: int| 0 <= e < entries.len() && (#[trigger] entries[e]).path.parent() == Some(dir)
}

/// Whether each entry has its folder among `dirs`, each of those is the folder of an entry, and no
/// two of them are the same one.
pub open spec fn has_folders(state: ExtractionView) -> bool {
    &&& forall|e: int|
        0 <= e < state.entries.len() ==> ((#[trigger] state.entries[e]).path.parent() matches Some(
            folder,
        ) ==> is_listed(state.dirs, folder))
    &&& forall|d: int|
        0 <= d < state.dirs.len() ==> is_needed(state.entries, #[trigger] state.dirs[d])
    &&& forall|c: int, d: int|
        0 <= c < d < state.dirs.len() ==> (#[trigger] state.dirs[c]).key() != (
        #[trigger] state.dirs[d]).key()
}

/// The folders that the entries need are listed.
proof fn lemma_has_folders(state: ExtractionView)
    requires
        crate::index::are_folders_of(state.dirs, state.entries),
    ensures
        has_folders(state),
{
    let keys = crate::index::path_keys(state.dirs);
    assert forall|e: int| 0 <= e < state.entries.len() implies ((
    #[trigger] state.entries[e]).path.parent() matches Some(folder) ==> is_listed(
        state.dirs,
        folder,
    )) by {
        if let Some(folder) = state.entries[e].path.parent() {
            assert(keys.contains(folder.key()));
            let d = keys.index_of(folder.key());
            assert(keys[d] == state.dirs[d].key());
        }
    }
    assert forall|d: int| 0 <= d < state.dirs.len() implies is_needed(
        state.entries,
        #[trigger] state.dirs[d],
    ) by {
        let e = choose|e: int|
            0 <= e < state.entries.len() && (#[trigger] state.entries[e]).path.parent() == Some(
                state.dirs[d],
            );
        assert(state.entries[e].path.parent() == Some(state.dirs[d]));
    }
    assert forall|c: int, d: int| 0 <= c < d < state.dirs.len() implies (
    #[trigger] state.dirs[c]).key() != (#[trigger] state.dirs[d]).key() by {
        assert(keys[c] == state.dirs[c].key() && keys[d] == state.dirs[d].key());
    }
}

/// Whether the step from the `i`th moment to the next one is a step that streams and files have in
/// common, and works.
spec fn goes_further(run: Seq<Moment>, config: ConfigView, mode: WriteMode, i: int) -> bool {
    run[i].state.step is CreateDir || run[i].state.step is WriteEntries
        ==> crate::extract::is_taken_further(
        run[i].state,
        run[i + 1].state,
        config,
        mode,
        None,
        Ok::<(), FastGmadError>(()),
    )
}

/// Folders are created one after the other, to the last one.
proof fn lemma_folders_in_order(
    run: Seq<Moment>,
    start: int,
    i: int,
    config: ConfigView,
    mode: WriteMode,
)
    requires
        0 <= start <= i < run.len(),
        run[start].state.valid(),
        run[start].state.step == run[start].state.after_dirs(0, mode),
        forall|k: int| start <= k < run.len() - 1 ==> #[trigger] goes_further(run, config, mode, k),
    ensures
        knows_the_same(run[i].state, run[start].state),
        run[i].state.step == if i - start < run[start].state.dirs.len() {
            ExtractStep::CreateDir((i - start) as usize)
        } else {
            ExtractStep::WriteEntries(mode)
        },
    decreases i - start,
{
    if i > start {
        lemma_folders_in_order(run, start, i - 1, config, mode);
        assert(goes_further(run, config, mode, i - 1));
    }
}

/// In the extraction of a stream whose steps all work, the header is read; the output folder is
/// created; `addon.json` is created, and then written; the index is read; all the folders that the
/// entries need are created, in their order and each of them once; and then the contents of the
/// entries are written, one after the other if there is to be one thread, and at once if there are
/// more. Nothing that was found out is lost on the way.
pub proof fn law_stream_steps(run: Seq<Moment>, config: ConfigView, i: int)
    requires
        stream_works(run, config),
        0 <= i < run.len(),
    ensures
        ({
            let state = run[i].state;
            let step = state.step;
            let done = i - 5;
            &&& i == 0 ==> step == ExtractStep::ReadHeader
            &&& i == 1 ==> step == ExtractStep::CreateOut
            &&& i == 2 ==> step == ExtractStep::CreateAddonJson
            &&& i == 3 ==> step == ExtractStep::WriteAddonJson
            &&& i == 4 ==> step == ExtractStep::ReadIndex
            &&& i >= 5 && done < state.dirs.len() ==> step == ExtractStep::CreateDir(done as usize)
            &&& i >= 5 && done >= state.dirs.len() && config.max_io_threads == 1 ==> step
                == ExtractStep::WriteEntries(WriteMode::Sequential)
            &&& i >= 5 && done >= state.dirs.len() && config.max_io_threads != 1 ==> step
                == ExtractStep::WriteEntries(WriteMode::Parallel)
            &&& 1 <= i ==> state.addon_json == run[1].state.addon_json
            &&& i >= 5 ==> knows_the_same(state, run[5].state) && has_folders(state)
        }),
{
    let mode = crate::extract::stream_mode(config);
    assert(i >= 1 ==> stream_step_works(run, config, 0));
    assert(i >= 2 ==> stream_step_works(run, config, 1));
    assert(i >= 3 ==> stream_step_works(run, config, 2));
    assert(i >= 4 ==> stream_step_works(run, config, 3));
    assert(i >= 5 ==> stream_step_works(run, config, 4));
    if i >= 5 {
        assert(run[5].state.valid());
        assert forall|k: int| 5 <= k < run.len() - 1 implies #[trigger] goes_further(
            run,
            config,
            mode,
            k,
        ) by {
            assert(stream_step_works(run, config, k));
        }
        lemma_folders_in_order(run, 5, i, config, mode);
        lemma_has_folders(run[i].state);
    }
}

/// In the extraction of a file whose steps all work, the file is opened; from there on it is as with
/// a stream, but that behind the index it is asked where the contents of the entries start, and that
/// these are written by several workers.
pub proof fn law_file_steps(
    run: Seq<Moment>,
    config: ConfigView,
    path: PathView,
    data_start: u64,
    i: int,
)
    requires
        file_works(run, config, path, data_start),
        0 <= i < run.len(),
    ensures
        ({
            let state = run[i].state;
            let step = state.step;
            let done = i - 7;
            &&& i == 0 ==> step == ExtractStep::Open
            &&& i == 1 ==> step == ExtractStep::ReadHeader
            &&& i == 2 ==> step == ExtractStep::CreateOut
            &&& i == 3 ==> step == ExtractStep::CreateAddonJson
            &&& i == 4 ==> step == ExtractStep::WriteAddonJson
            &&& i == 5 ==> step == ExtractStep::ReadIndex
            &&& i == 6 ==> step == ExtractStep::Locate
            &&& i >= 7 && done < state.dirs.len() ==> step == ExtractStep::CreateDir(done as usize)
            &&& i >= 7 && done >= state.dirs.len() ==> step == ExtractStep::WriteEntries(
                WriteMode::Pool,
            )
            &&& 2 <= i ==> state.addon_json == run[2].state.addon_json
            &&& i >= 7 ==> knows_the_same(state, run[7].state) && has_folders(state)
        }),
{
    assert(i >= 1 ==> file_step_works(run, config, path, data_start, 0));
    assert(i >= 2 ==> file_step_works(run, config, path, data_start, 1));
    assert(i >= 3 ==> file_step_works(run, config, path, data_start, 2));
    assert(i >= 4 ==> file_step_works(run, config, path, data_start, 3));
    assert(i >= 5 ==> file_step_works(run, config, path, data_start, 4));
    assert(i >= 6 ==> file_step_works(run, config, path, data_start, 5));
    assert(i >= 7 ==> file_step_works(run, config, path, data_start, 6));
    if i >= 7 {
        assert(run[7].state.valid());
        assert forall|k: int| 7 <= k < run.len() - 1 implies #[trigger] goes_further(
            run,
            config,
            WriteMode::Pool,
            k,
        ) by {
            assert(file_step_works(run, config, path, data_start, k));
        }
        lemma_folders_in_order(run, 7, i, config, WriteMode::Pool);
        lemma_has_folders(run[i].state);
    }
}

/// Whether a folder with the key `key` was created before the `i`th moment of `run`, by a step that
/// worked.
pub open spec fn is_created(run: Seq<Moment>, i: int, key: PathKeyView) -> bool {
    exists|m: int, d: usize|
        0 <= m < i && (#[trigger] run[m]).state.step == ExtractStep::CreateDir(d) && (
        #[trigger] run[m].state.dirs[d as int]).key() == key
}

/// Whether the files that are to be written all lie in folders that were created, as far as they lie
/// in a folder at all.
pub open spec fn lie_in_created_folders(run: Seq<Moment>, i: int) -> bool {
    forall|e: int|
        0 <= e < run[i].state.entries.len() ==> ((
        #[trigger] run[i].state.entries[e]).path.parent() matches Some(folder) ==> is_created(
            run,
            i,
            folder.key(),
        ))
}

/// Files lie in folders that were created if all those that are listed were.
proof fn lemma_lie_in_created_folders(run: Seq<Moment>, start: int, i: int)
    requires
        0 <= start <= i < run.len(),
        has_folders(run[i].state),
        i - start >= run[i].state.dirs.len(),
        run[i].state.dirs.len() <= usize::MAX,
        forall|k: int|
            start <= k < start + run[i].state.dirs.len() ==> (#[trigger] run[k]).state.step
                == ExtractStep::CreateDir((k - start) as usize) && run[k].state.dirs
                == run[i].state.dirs,
    ensures
        lie_in_created_folders(run, i),
{
    let state = run[i].state;
    assert forall|e: int| 0 <= e < state.entries.len() implies ((
    #[trigger] state.entries[e]).path.parent() matches Some(folder) ==> is_created(
        run,
        i,
        folder.key(),
    )) by {
        if let Some(folder) = state.entries[e].path.parent() {
            assert(is_listed(state.dirs, folder));
            let d = choose|d: int|
                0 <= d < state.dirs.len() && (#[trigger] state.dirs[d]).key() == folder.key();
            let k = start + d;
            assert(run[k].state.step == ExtractStep::CreateDir(d as usize));
            assert(run[k].state.dirs[(d as usize) as int].key() == folder.key());
        }
    }
}

/// When the contents of the entries are to be written, the folder of each was created before.
pub proof fn law_stream_creates_folders(run: Seq<Moment>, config: ConfigView, i: int)
    requires
        stream_works(run, config),
        0 <= i < run.len(),
        run[i].state.step is WriteEntries,
    ensures
        lie_in_created_folders(run, i),
{
    law_stream_steps(run, config, i);
    let n = run[i].state.dirs.len() as int;
    assert(run[i].state.valid());
    assert forall|k: int| 5 <= k < 5 + n implies (#[trigger] run[k]).state.step
        == ExtractStep::CreateDir((k - 5) as usize) && run[k].state.dirs == run[i].state.dirs by {
        law_stream_steps(run, config, k);
    }
    lemma_lie_in_created_folders(run, 5, i);
}

/// When the contents of the entries are to be written, the folder of each was created before.
pub proof fn law_file_creates_folders(
    run: Seq<Moment>,
    config: ConfigView,
    path: PathView,
    data_start: u64,
    i: int,
)
    requires
        file_works(run, config, path, data_start),
        0 <= i < run.len(),
        run[i].state.step is WriteEntries,
    ensures
        lie_in_created_folders(run, i),
{
    law_file_steps(run, config, path, data_start, i);
    let n = run[i].state.dirs.len() as int;
    assert(run[i].state.valid());
    assert forall|k: int| 7 <= k < 7 + n implies (#[trigger] run[k]).state.step
        == ExtractStep::CreateDir((k - 7) as usize) && run[k].state.dirs == run[i].state.dirs by {
        law_file_steps(run, config, path, data_start, k);
    }
    lemma_lie_in_created_folders(run, 7, i);
}

/// Whether `e` tells that `failure` came up while `doing` something to the file at `path`.
pub open spec fn tells_of(
    e: ErrorView,
    failure: IoFailure,
    doing: Seq<char>,
    path: PathView,
) -> bool {
    &&& e.kind == KindView::Io(failure@)
    &&& e.context == Some(ContextView { doing, path: Some(path) })
}

/// A step of a stream that does not work is told of, with what was being done and the path that it
/// was done to, and is still to be done.
pub proof fn law_stream_failures(
    before: ExtractionView,
    after: ExtractionView,
    config: ConfigView,
    r: ReaderView,
    r_after: ReaderView,
    failure: IoFailure,
    out: Result<(), FastGmadError>,
)
    requires
        before.valid(),
        crate::extract::stream_goes_on(
            before,
            after,
            config,
            r,
            r_after,
            Err::<(), IoFailure>(failure),
            out,
        ),
        before.step is CreateOut || before.step is CreateAddonJson || before.step is WriteAddonJson
            || before.step is CreateDir,
    ensures
        out is Err,
        after == before,
        before.step is CreateOut ==> tells_of(
            out->Err_0@,
            failure,
            "creating output directory"@,
            config.out,
        ),
        before.step is CreateAddonJson ==> tells_of(
            out->Err_0@,
            failure,
            "creating addon.json"@,
            config.out.join("addon.json".spec_bytes()),
        ),
        before.step is WriteAddonJson ==> tells_of(
            out->Err_0@,
            failure,
            "writing addon.json"@,
            config.out.join("addon.json".spec_bytes()),
        ),
        before.step matches ExtractStep::CreateDir(i) ==> tells_of(
            out->Err_0@,
            failure,
            "creating directory"@,
            before.dirs[i as int],
        ),
{
}

/// A step of a file that does not work is told of, with what was being done and the path that it
/// was done to, and is still to be done.
pub proof fn law_file_failures(
    before: ExtractionView,
    after: ExtractionView,
    config: ConfigView,
    path: PathView,
    r: ReaderView,
    r_after: ReaderView,
    failure: IoFailure,
    out: Result<(), FastGmadError>,
)
    requires
        before.valid(),
        crate::extract::file_goes_on(
            before,
            after,
            config,
            path,
            r,
            r_after,
            Err::<u64, IoFailure>(failure),
            out,
        ),
        !(before.step is ReadHeader || before.step is ReadIndex || before.step is WriteEntries),
    ensures
        out is Err,
        after == before,
        before.step is Open ==> tells_of(out->Err_0@, failure, "opening GMA file"@, path),
        before.step is Locate ==> tells_of(
            out->Err_0@,
            failure,
            "locating GMA data block"@,
            path,
        ),
        before.step is CreateOut ==> tells_of(
            out->Err_0@,
            failure,
            "creating output directory"@,
            config.out,
        ),
        before.step is CreateAddonJson ==> tells_of(
            out->Err_0@,
            failure,
            "creating addon.json"@,
            config.out.join("addon.json".spec_bytes()),
        ),
        before.step is WriteAddonJson ==> tells_of(
            out->Err_0@,
            failure,
            "writing addon.json"@,
            config.out.join("addon.json".spec_bytes()),
        ),
        before.step matches ExtractStep::CreateDir(i) ==> tells_of(
            out->Err_0@,
            failure,
            "creating directory"@,
            before.dirs[i as int],
        ),
{
}

/// Whether reading a part of the head of the archive, from where `r` is, has come to `out`: it works if
/// all of the part is there and nothing is wrong with it, and else there is an error about that.
pub open spec fn is_read_or_fails<T>(
    part: Parsed<T>,
    r: ReaderView,
    r_after: ReaderView,
    out: Result<(), FastGmadError>,
) -> bool {
    match part {
        Parsed::Done(_, next) => {
            &&& out is Ok
            &&& r_after.data == r.data
            &&& r_after.pos == next
            &&& r_after.end == r.end
            &&& r_after.ran_out == r.ran_out
        },
        Parsed::Fault(message) => {
            &&& out is Err
            &&& r_after.ran_out == r.ran_out
            &&& out->Err_0@ == (ErrorView { kind: KindView::InvalidGma(message), context: None })
        },
        Parsed::Ended(context) => {
            &&& out is Err
            &&& r_after.ran_out
            &&& r.end.unexpected_eof ==> out->Err_0@ == (ErrorView {
                kind: KindView::InvalidGma(
                    context + ": unexpected end of file, GMA is truncated"@,
                ),
                context: None,
            })
            &&& !r.end.unexpected_eof ==> out->Err_0@ == (ErrorView {
                kind: KindView::Io(r.end),
                context: Some(ContextView { doing: context, path: None }),
            })
        },
    }
}

/// No step of a stream fails where what only the system can do has worked, but for reading a head that
/// is not all there or is wrong; and a step that fails is still to be done.
pub proof fn law_stream_steps_succeed(
    before: ExtractionView,
    after: ExtractionView,
    config: ConfigView,
    r: ReaderView,
    r_after: ReaderView,
    out: Result<(), FastGmadError>,
)
    requires
        crate::extract::stream_goes_on(
            before,
            after,
            config,
            r,
            r_after,
            Ok::<(), IoFailure>(()),
            out,
        ),
    ensures
        before.step is ReadHeader ==> is_read_or_fails(
            crate::header::header(r.data, r.pos),
            r,
            r_after,
            out,
        ),
        before.step is ReadIndex ==> is_read_or_fails(
            crate::index::index_from(r.data, r.pos, 0),
            r,
            r_after,
            out,
        ),
        !(before.step is ReadHeader || before.step is ReadIndex) ==> out is Ok && r_after == r,
        out is Err ==> after == before,
{
}

/// No step of a file fails where what only the system can do has worked, but for reading a head that is
/// not all there or is wrong, and for entries whose contents would start behind the last 64-bit
/// position.
pub proof fn law_file_steps_succeed(
    before: ExtractionView,
    after: ExtractionView,
    config: ConfigView,
    path: PathView,
    r: ReaderView,
    r_after: ReaderView,
    data_start: u64,
    out: Result<(), FastGmadError>,
)
    requires
        crate::extract::file_goes_on(
            before,
            after,
            config,
            path,
            r,
            r_after,
            Ok::<u64, IoFailure>(data_start),
            out,
        ),
    ensures
        before.step is ReadHeader ==> is_read_or_fails(
            crate::header::header(r.data, r.pos),
            r,
            r_after,
            out,
        ),
        before.step is ReadIndex ==> is_read_or_fails(
            crate::index::index_from(r.data, r.pos, 0),
            r,
            r_after,
            out,
        ),
        before.step is Locate ==> {
            &&& out is Ok <==> forall|i: int|
                0 <= i < before.entries.len() ==> (#[trigger] before.entries[i]).offset + data_start
                    <= u64::MAX
            &&& out is Err ==> out->Err_0@ == (ErrorView {
                kind: KindView::InvalidGma("GMA file index is too large"@),
                context: None,
            })
            &&& out is Ok ==> after.entries.len() == before.entries.len() && forall|i: int|
                0 <= i < before.entries.len() ==> {
                    let entry = #[trigger] before.entries[i];
                    &&& after.entries[i].name == entry.name
                    &&& after.entries[i].path == entry.path
                    &&& after.entries[i].offset == entry.offset + data_start
                    &&& after.entries[i].size == entry.size
                    &&& after.entries[i].fault == entry.fault
                }
        },
        !(before.step is ReadHeader || before.step is ReadIndex || before.step is Locate) ==> out
            is Ok && r_after == r,
{
    if before.step is Locate {
        if crate::extract::is_too_far(before.entries, data_start as nat) {
            let i = choose|i: int|
                0 <= i < before.entries.len() && (#[trigger] before.entries[i]).offset + data_start
                    > u64::MAX;
            assert(before.entries[i].offset + data_start > u64::MAX);
        }
    }
}

} // verus!
