//! Extracting an archive from beginning to end.
//!
//! Reading and writing is the caller's. The state of an extraction says what is to be done next;
//! the caller does that and hands back how it went.

use vstd::prelude::*;
use vstd::string::*;

use crate::addon_json::write_addon_json;
use crate::conf::ConfigView;
use crate::error::{ErrorView, FastGmadError, IoFailure};
use crate::header::{read_header, HeaderView};
use crate::index::{create_output_dirs, locate_entries, read_index, total_size, EntryView, GmaEntry};
use crate::path::{OsPath, PathView};
use crate::reader::{Parsed, Reader, ReaderView};
use crate::size::human_bytes;
use crate::text::decimal_text;

pub use crate::conf::{ExtractGmaConfig, ExtractGmadIn, PrintHelp};

verus! {

/// How the contents of the entries are written.
#[derive(Clone, Copy, Debug, PartialEq, Eq, Structural)]
pub enum WriteMode {
    /// One after the other, while the stream is read.
    Sequential,
    /// By several writers, while the stream is read.
    Parallel,
    /// By several workers, out of the file.
    Pool,
}

/// What is to be done next.
#[derive(Clone, Copy, Debug, PartialEq, Eq, Structural)]
pub enum ExtractStep {
    /// Open the archive.
    Open,
    /// Have the header read.
    ReadHeader,
    /// Create the output folder.
    CreateOut,
    /// Create `addon.json` in the output folder.
    CreateAddonJson,
    /// Write the text of `addon.json` to it.
    WriteAddonJson,
    /// Have the index read.
    ReadIndex,
    /// Tell how many bytes of the archive lie before the contents of the entries.
    Locate,
    /// Create the folder of this number, and those above it.
    CreateDir(usize),
    /// Write the contents of the entries.
    WriteEntries(WriteMode),
}

/// How far an extraction is.
#[derive(Debug)]
pub struct Extraction {
    /// What is to be done next.
    pub step: ExtractStep,
    /// The text of `addon.json`.
    pub addon_json: String,
    /// The entries.
    pub entries: Vec<GmaEntry>,
    /// The folders that the entries need.
    pub dirs: Vec<OsPath>,
}

/// What an [`Extraction`] holds.
#[verifier::ext_equal]
pub struct ExtractionView {
    pub step: ExtractStep,
    pub addon_json: Seq<char>,
    pub entries: Seq<EntryView>,
    pub dirs: Seq<PathView>,
}

impl View for Extraction {
    type V = ExtractionView;

    open spec fn view(&self) -> ExtractionView {
        ExtractionView {
            step: self.step,
            addon_json: self.addon_json@,
            entries: crate::index::entry_views(self.entries@),
            dirs: crate::index::path_views(self.dirs@),
        }
    }
}

/// The text of `addon.json` for an archive with this header.
pub open spec fn addon_json_of(head: HeaderView) -> Seq<char> {
    crate::addon_json::addon_json_text(
        crate::addon_json::json_object(head.addon_json),
        head.title,
        head.addon_json,
    )
}

/// Where `addon.json` goes.
pub open spec fn addon_json_path(config: ConfigView) -> PathView {
    config.out.join("addon.json".spec_bytes())
}

/// How the contents of a stream are written.
pub open spec fn stream_mode(config: ConfigView) -> WriteMode {
    if config.max_io_threads == 1 {
        WriteMode::Sequential
    } else {
        WriteMode::Parallel
    }
}

impl ExtractionView {
    /// The extraction at its start.
    pub open spec fn begin(step: ExtractStep) -> ExtractionView {
        ExtractionView { step, addon_json: Seq::empty(), entries: Seq::empty(), dirs: Seq::empty() }
    }

    /// The extraction of a stream at its start.
    pub open spec fn of_stream() -> ExtractionView {
        ExtractionView::begin(ExtractStep::ReadHeader)
    }

    /// The extraction of a file at its start.
    pub open spec fn of_file() -> ExtractionView {
        ExtractionView::begin(ExtractStep::Open)
    }

    /// The extraction with something else to be done next.
    pub open spec fn with_step(self, step: ExtractStep) -> ExtractionView {
        ExtractionView { step, ..self }
    }

    /// What is to be done when the first `n` of the folders are there.
    pub open spec fn after_dirs(self, n: int, mode: WriteMode) -> ExtractStep {
        if n < self.dirs.len() {
            ExtractStep::CreateDir(n as usize)
        } else {
            ExtractStep::WriteEntries(mode)
        }
    }

    /// The contents are together a 64-bit number of bytes, and a folder that is to be created is
    /// one of those that the entries lie in.
    pub open spec fn valid(self) -> bool {
        &&& crate::index::sum_sizes(self.entries) <= u64::MAX
        &&& self.dirs.len() <= usize::MAX
        &&& self.step matches ExtractStep::CreateDir(i) ==> i < self.dirs.len()
    }

    /// The line that tells what was extracted.
    pub open spec fn summary(self) -> Seq<char> {
        "Extracted "@ + crate::text::decimal(self.entries.len()) + " entries ("@
            + crate::size::human(crate::index::sum_sizes(self.entries)) + ")"@
    }
}

/// Whether having the header read has come to `out` and to the state `after`.
pub open spec fn header_is_read(
    before: ExtractionView,
    after: ExtractionView,
    r: ReaderView,
    r_after: ReaderView,
    out: Result<(), FastGmadError>,
) -> bool {
    match crate::header::header(r.data, r.pos) {
        Parsed::Ended(context) => {
            &&& out matches Err(e)
            &&& e@ == ErrorView::reading(r.end, context)
            &&& r_after.ran_out
            &&& after == before
        },
        Parsed::Fault(message) => {
            &&& out matches Err(e)
            &&& e@ == ErrorView::gma(message)
            &&& r_after.ran_out == r.ran_out
            &&& after == before
        },
        Parsed::Done(head, next) => {
            &&& out is Ok
            &&& r_after == r.moved_to(next)
            &&& after == ExtractionView {
                step: ExtractStep::CreateOut,
                addon_json: addon_json_of(head),
                ..before
            }
        },
    }
}

/// Whether having the index read has come to `out` and to the entries `entries`.
pub open spec fn index_is_read(
    entries: Seq<EntryView>,
    config: ConfigView,
    r: ReaderView,
    r_after: ReaderView,
    out: Result<(), FastGmadError>,
) -> bool {
    match crate::index::index_from(r.data, r.pos, 0) {
        Parsed::Ended(context) => {
            &&& out matches Err(e)
            &&& e@ == ErrorView::reading(r.end, context)
            &&& r_after.ran_out
        },
        Parsed::Fault(message) => {
            &&& out matches Err(e)
            &&& e@ == ErrorView::gma(message)
            &&& r_after.ran_out == r.ran_out
        },
        Parsed::Done(raw, next) => {
            &&& out is Ok
            &&& r_after == r.moved_to(next)
            &&& entries == crate::index::placed(config.out, raw)
        },
    }
}

/// Whether a step that only the system can do has come to `out` and to the state `after`: if it
/// worked, `next` is to be done; if not, there is an error that tells what was being done and to
/// which path.
pub open spec fn is_done_or_fails(
    before: ExtractionView,
    after: ExtractionView,
    next: ExtractStep,
    failure: Option<IoFailure>,
    doing: Seq<char>,
    path: PathView,
    out: Result<(), FastGmadError>,
) -> bool {
    match failure {
        None => out is Ok && after == before.with_step(next),
        Some(failure) => {
            &&& out matches Err(e)
            &&& e@ == ErrorView::io(failure@, doing, Some(path))
            &&& after == before
        },
    }
}

impl Extraction {
    /// An extraction from a stream, at its start.
    pub fn of_stream() -> (state: Extraction)
        ensures
            state@ == ExtractionView::begin(ExtractStep::ReadHeader),
            state@ == ExtractionView::of_stream(),
            state@.valid(),
    {
        Extraction::at(ExtractStep::ReadHeader)
    }

    /// An extraction from a file, at its start.
    pub fn of_file() -> (state: Extraction)
        ensures
            state@ == ExtractionView::begin(ExtractStep::Open),
            state@ == ExtractionView::of_file(),
            state@.valid(),
    {
        Extraction::at(ExtractStep::Open)
    }

    /// An extraction of which nothing is known but what is to be done next.
    fn at(step: ExtractStep) -> (state: Extraction)
        requires
            !(step is CreateDir),
        ensures
            state@ == ExtractionView::begin(step),
            state@.valid(),
    {
        proof {
            reveal_strlit("");
        }
        let state = Extraction {
            step,
            addon_json: String::from_str(""),
            entries: Vec::new(),
            dirs: Vec::new(),
        };
        assert(state@ =~= ExtractionView::begin(step));
        state
    }

    /// Goes on with creating folders, of which the first `n` are there, and then with writing.
    fn after_dirs(&mut self, n: usize, mode: WriteMode)
        requires
            old(self)@.valid(),
        ensures
            final(self)@ == old(self)@.with_step(old(self)@.after_dirs(n as int, mode)),
            final(self)@.valid(),
    {
        assert(self@.dirs.len() == self.dirs@.len());
        self.step = if n < self.dirs.len() {
            ExtractStep::CreateDir(n)
        } else {
            ExtractStep::WriteEntries(mode)
        };
    }

    /// Takes `entries` on, and the folders that they need.
    fn take_entries(&mut self, entries: Vec<GmaEntry>, mode: WriteMode)
        requires
            crate::index::sum_sizes(crate::index::entry_views(entries@)) <= u64::MAX,
        ensures
            final(self)@.entries == crate::index::entry_views(entries@),
            crate::index::are_folders_of(final(self)@.dirs, final(self)@.entries),
            final(self)@.addon_json == old(self)@.addon_json,
            final(self)@.step == final(self)@.after_dirs(0, mode),
            final(self)@.valid(),
    {
        self.dirs = create_output_dirs(entries.as_slice());
        proof {
            let dirs = crate::index::path_views(self.dirs@);
            assert(dirs.len() == self.dirs.len());
        }
        self.entries = entries;
        self.step = ExtractStep::WriteEntries(mode);
        self.after_dirs(0, mode);
    }

    /// The line that tells what was extracted.
    pub fn summary(&self) -> (text: String)
        requires
            self@.valid(),
        ensures
            text@ == self@.summary(),
    {
        assert(self@.entries.len() == self.entries@.len());
        let size = human_bytes(total_size(self.entries.as_slice()));
        let count = decimal_text(self.entries.len() as u64);
        let mut text = String::from_str("Extracted ");
        text.append(count.as_str());
        text.append(" entries (");
        text.append(size.as_str());
        text.append(")");
        text
    }
}

/// Reads the header for `state`, which then knows the text of `addon.json`.
fn take_header(state: &mut Extraction, r: &mut Reader) -> (out: Result<(), FastGmadError>)
    requires
        old(state)@.valid(),
        old(r)@.valid(),
    ensures
        final(state)@.valid(),
        final(r)@.valid(),
        header_is_read(old(state)@, final(state)@, old(r)@, final(r)@, out),
{
    let (title, addon_json) = match read_header(r) {
        Ok(head) => head,
        Err(e) => return Err(e),
    };
    state.addon_json = write_addon_json(title.as_slice(), addon_json.as_slice());
    state.step = ExtractStep::CreateOut;
    Ok(())
}

/// Passes on how a step went that only the system can do.
fn pass_on<T>(outcome: Result<T, IoFailure>, doing: &str, path: &OsPath) -> (out: Result<
    T,
    FastGmadError,
>)
    ensures
        match outcome {
            Ok(value) => out == Ok::<T, FastGmadError>(value),
            Err(failure) => {
                &&& out matches Err(e)
                &&& e@ == ErrorView::io(failure@, doing@, Some(path@))
            },
        },
{
    match outcome {
        Ok(value) => Ok(value),
        Err(failure) => Err(FastGmadError::io(failure, doing, Some(path))),
    }
}

/// Whether a step that streams and files have in common has come to `out` and to the state `after`;
/// `mode` is how the contents of the entries are written.
pub open spec fn is_taken_further(
    before: ExtractionView,
    after: ExtractionView,
    config: ConfigView,
    mode: WriteMode,
    failure: Option<IoFailure>,
    out: Result<(), FastGmadError>,
) -> bool {
    match before.step {
        ExtractStep::CreateOut => is_done_or_fails(
            before,
            after,
            ExtractStep::CreateAddonJson,
            failure,
            "creating output directory"@,
            config.out,
            out,
        ),
        ExtractStep::CreateAddonJson => is_done_or_fails(
            before,
            after,
            ExtractStep::WriteAddonJson,
            failure,
            "creating addon.json"@,
            addon_json_path(config),
            out,
        ),
        ExtractStep::WriteAddonJson => is_done_or_fails(
            before,
            after,
            ExtractStep::ReadIndex,
            failure,
            "writing addon.json"@,
            addon_json_path(config),
            out,
        ),
        ExtractStep::CreateDir(i) => is_done_or_fails(
            before,
            after,
            before.after_dirs(i + 1, mode),
            failure,
            "creating directory"@,
            before.dirs[i as int],
            out,
        ),
        _ => out is Ok && after == before,
    }
}

/// The failure that an outcome tells of.
pub open spec fn failure_of<T>(outcome: Result<T, IoFailure>) -> Option<IoFailure> {
    match outcome {
        Ok(_) => None,
        Err(failure) => Some(failure),
    }
}

/// Takes an extraction further by a step that streams and files have in common.
fn take_further<T>(
    state: &mut Extraction,
    conf: &ExtractGmaConfig,
    mode: WriteMode,
    outcome: Result<T, IoFailure>,
) -> (out: Result<(), FastGmadError>)
    requires
        old(state)@.valid(),
    ensures
        final(state)@.valid(),
        is_taken_further(old(state)@, final(state)@, conf@, mode, failure_of(outcome), out),
{
    match state.step {
        ExtractStep::CreateOut => {
            match pass_on(outcome, "creating output directory", &conf.out) {
                Ok(_) => {},
                Err(e) => return Err(e),
            }
            state.step = ExtractStep::CreateAddonJson;
        },
        ExtractStep::CreateAddonJson => {
            let path = conf.out.join("addon.json".as_bytes());
            match pass_on(outcome, "creating addon.json", &path) {
                Ok(_) => {},
                Err(e) => return Err(e),
            }
            state.step = ExtractStep::WriteAddonJson;
        },
        ExtractStep::WriteAddonJson => {
            let path = conf.out.join("addon.json".as_bytes());
            match pass_on(outcome, "writing addon.json", &path) {
                Ok(_) => {},
                Err(e) => return Err(e),
            }
            state.step = ExtractStep::ReadIndex;
        },
        ExtractStep::CreateDir(i) => {
            assert(state@.dirs.len() == state.dirs@.len());
            match pass_on(outcome, "creating directory", &state.dirs[i]) {
                Ok(_) => {},
                Err(e) => return Err(e),
            }
            state.after_dirs(i + 1, mode);
        },
        _ => {},
    }
    Ok(())
}

/// Whether the next step of the extraction of a stream has come to `out` and to the state `after`,
/// where `outcome` is what became of what was to be done.
pub open spec fn stream_goes_on(
    before: ExtractionView,
    after: ExtractionView,
    config: ConfigView,
    r: ReaderView,
    r_after: ReaderView,
    outcome: Result<(), IoFailure>,
    out: Result<(), FastGmadError>,
) -> bool {
    match before.step {
        ExtractStep::ReadHeader => header_is_read(before, after, r, r_after, out),
        ExtractStep::ReadIndex => {
            &&& index_is_read(after.entries, config, r, r_after, out)
            &&& out is Err ==> after == before
            &&& out is Ok ==> {
                &&& crate::index::are_folders_of(after.dirs, after.entries)
                &&& after.addon_json == before.addon_json
                &&& after.step == after.after_dirs(0, stream_mode(config))
            }
        },
        _ => {
            &&& is_taken_further(
                before,
                after,
                config,
                stream_mode(config),
                failure_of(outcome),
                out,
            )
            &&& r_after == r
        },
    }
}

/// Whether the next step of the extraction of the file at `path` has come to `out` and to the state
/// `after`, where `outcome` is what became of what was to be done.
pub open spec fn file_goes_on(
    before: ExtractionView,
    after: ExtractionView,
    config: ConfigView,
    path: PathView,
    r: ReaderView,
    r_after: ReaderView,
    outcome: Result<u64, IoFailure>,
    out: Result<(), FastGmadError>,
) -> bool {
    match before.step {
        ExtractStep::Open => {
            &&& is_done_or_fails(
                before,
                after,
                ExtractStep::ReadHeader,
                failure_of(outcome),
                "opening GMA file"@,
                path,
                out,
            )
            &&& r_after == r
        },
        ExtractStep::ReadHeader => header_is_read(before, after, r, r_after, out),
        ExtractStep::ReadIndex => {
            &&& index_is_read(after.entries, config, r, r_after, out)
            &&& after == if out is Ok {
                ExtractionView {
                    step: ExtractStep::Locate,
                    entries: after.entries,
                    ..before
                }
            } else {
                before
            }
        },
        ExtractStep::Locate => {
            &&& r_after == r
            &&& match outcome {
                Err(failure) => {
                    &&& out matches Err(e)
                    &&& e@ == ErrorView::io(
                        failure@,
                        "locating GMA data block"@,
                        Some(path),
                    )
                    &&& after == before
                },
                Ok(data_start) => if is_too_far(before.entries, data_start as nat) {
                    &&& out matches Err(e)
                    &&& e@ == ErrorView::gma("GMA file index is too large"@)
                    &&& after == (ExtractionView { entries: Seq::empty(), ..before })
                } else {
                    &&& out is Ok
                    &&& after.entries == before.entries.map_values(
                        |e: EntryView| crate::index::shifted(e, data_start as nat),
                    )
                    &&& crate::index::are_folders_of(after.dirs, after.entries)
                    &&& after.addon_json == before.addon_json
                    &&& after.step == after.after_dirs(0, WriteMode::Pool)
                },
            }
        },
        _ => {
            &&& is_taken_further(
                before,
                after,
                config,
                WriteMode::Pool,
                failure_of(outcome),
                out,
            )
            &&& r_after == r
        },
    }
}

/// Takes the extraction of a stream one step further: `outcome` is what became of the step that was
/// to be done. Header and index are read from `r`; where it runs out of bytes before they end, and
/// there are more to come, the same step can be made again with a longer one.
pub fn extract_gma(
    state: &mut Extraction,
    conf: &ExtractGmaConfig,
    r: &mut Reader,
    outcome: Result<(), IoFailure>,
) -> (out: Result<(), FastGmadError>)
    requires
        old(state)@.valid(),
        old(r)@.valid(),
    ensures
        final(state)@.valid(),
        final(r)@.valid(),
        stream_goes_on(
            old(state)@,
            final(state)@,
            conf@,
            old(r)@,
            final(r)@,
            outcome,
            out,
        ),
{
    let mode = if conf.max_io_threads.get() == 1 {
        WriteMode::Sequential
    } else {
        WriteMode::Parallel
    };
    match state.step {
        ExtractStep::ReadHeader => take_header(state, r),
        ExtractStep::ReadIndex => {
            let entries = match read_index(conf, r) {
                Ok(entries) => entries,
                Err(e) => return Err(e),
            };
            state.take_entries(entries, mode);
            Ok(())
        },
        _ => take_further(state, conf, mode, outcome),
    }
}

/// Takes the extraction of the file at `path` one step further: `outcome` is what became of the
/// step that was to be done, with the number of bytes before the contents of the entries where that
/// was asked for. Header and index are read from `r`; where it runs out of bytes before they end,
/// and there are more to come, the same step can be made again with a longer one.
pub fn extract_gma_file(
    state: &mut Extraction,
    conf: &ExtractGmaConfig,
    path: &OsPath,
    r: &mut Reader,
    outcome: Result<u64, IoFailure>,
) -> (out: Result<(), FastGmadError>)
    requires
        old(state)@.valid(),
        old(r)@.valid(),
    ensures
        final(state)@.valid(),
        final(r)@.valid(),
        file_goes_on(
            old(state)@,
            final(state)@,
            conf@,
            path@,
            old(r)@,
            final(r)@,
            outcome,
            out,
        ),
{
    match state.step {
        ExtractStep::Open => {
            match pass_on(outcome, "opening GMA file", path) {
                Ok(_) => {},
                Err(e) => return Err(e),
            }
            state.step = ExtractStep::ReadHeader;
            Ok(())
        },
        ExtractStep::ReadHeader => take_header(state, r),
        ExtractStep::ReadIndex => {
            let entries = match read_index(conf, r) {
                Ok(entries) => entries,
                Err(e) => return Err(e),
            };
            state.entries = entries;
            state.step = ExtractStep::Locate;
            Ok(())
        },
        ExtractStep::Locate => {
            let data_start = match pass_on(outcome, "locating GMA data block", path) {
                Ok(data_start) => data_start,
                Err(e) => return Err(e),
            };
            let ghost views = state@.entries;
            let mut entries: Vec<GmaEntry> = Vec::new();
            std::mem::swap(&mut entries, &mut state.entries);
            assert(state@.entries =~= Seq::empty());
            let ghost given = entries@;
            match locate_entries(entries, data_start) {
                Ok(located) => {
                    proof {
                        lemma_shifted_sum(views, data_start as nat);
                        assert forall|i: int| 0 <= i < views.len() implies (#[trigger] views[i]).offset
                            + data_start <= u64::MAX by {
                            assert(given[i].offset + data_start <= u64::MAX);
                        }
                    }
                    state.take_entries(located, WriteMode::Pool);
                    Ok(())
                },
                Err(e) => {
                    proof {
                        let i = choose|i: int|
                            0 <= i < given.len() && #[trigger] given[i].offset + data_start
                                > u64::MAX;
                        assert(views[i].offset + data_start > u64::MAX);
                    }
                    Err(e)
                },
            }
        },
        _ => take_further(state, conf, WriteMode::Pool, outcome),
    }
}

/// Whether the offset of one of `entries` is no 64-bit number when `data_start` is added.
pub open spec fn is_too_far(entries: Seq<EntryView>, data_start: nat) -> bool {
    exists|i: int| 0 <= i < entries.len() && (#[trigger] entries[i]).offset + data_start > u64::MAX
}

/// Moving entries keeps their sizes.
proof fn lemma_shifted_sum(entries: Seq<EntryView>, data_start: nat)
    ensures
        crate::index::sum_sizes(
            entries.map_values(|e: EntryView| crate::index::shifted(e, data_start)),
        ) == crate::index::sum_sizes(entries),
    decreases entries.len(),
{
    if entries.len() > 0 {
        let moved = entries.map_values(|e: EntryView| crate::index::shifted(e, data_start));
        lemma_shifted_sum(entries.drop_last(), data_start);
        assert(moved.drop_last() =~= entries.drop_last().map_values(
            |e: EntryView| crate::index::shifted(e, data_start),
        ));
    }
}

} // verus!
