//! Writing the entries of a stream one after the other.

use vstd::prelude::*;

use crate::copy::{write_entry_streaming, StreamCopy, StreamStep};
use crate::copy_laws::StreamWorld;
use crate::error::{finish_failed_writes, ErrorView, FastGmadError, IoFailure};
use crate::index::GmaEntry;

verus! {

/// How many bytes the contents of each of `entries` are.
pub open spec fn sizes(entries: Seq<GmaEntry>) -> Seq<u64> {
    entries.map_values(|e: GmaEntry| e.size)
}

/// How far the writing of entries is.
#[derive(Clone, Copy, Debug, PartialEq, Eq, Structural)]
pub struct SequentialWrite {
    /// Which entry is being written.
    pub index: usize,
    /// How far the copy of that entry is.
    pub copy: StreamCopy,
    /// How many files could not be written.
    pub failed_writes: usize,
}

impl SequentialWrite {
    /// The copy of the entry at `index` at its start, where there is one.
    pub open spec fn copy_at(sizes: Seq<u64>, index: int) -> StreamCopy {
        StreamCopy::begin(
            if index < sizes.len() {
                sizes[index]
            } else {
                0
            },
        )
    }

    /// Nothing is written yet.
    pub open spec fn begin(sizes: Seq<u64>) -> SequentialWrite {
        SequentialWrite {
            index: 0,
            copy: SequentialWrite::copy_at(sizes, 0),
            failed_writes: 0,
        }
    }

    /// The writing after what was to be done for the entry at hand has been tried, and worked or
    /// did not: when the copy of that entry is done, the next entry is at hand.
    pub open spec fn next(self, sizes: Seq<u64>, worked: bool) -> SequentialWrite {
        let copy = self.copy.next(worked);
        let failed_writes = if copy.write_failed && !self.copy.write_failed {
            (self.failed_writes + 1) as usize
        } else {
            self.failed_writes
        };
        if copy.step is Done {
            SequentialWrite {
                index: (self.index + 1) as usize,
                copy: SequentialWrite::copy_at(sizes, self.index + 1),
                failed_writes,
            }
        } else {
            SequentialWrite { index: self.index, copy, failed_writes }
        }
    }

    /// The copy at hand is that of the entry at hand, and each entry has failed once at most.
    pub open spec fn valid(self, sizes: Seq<u64>) -> bool {
        &&& self.index <= sizes.len() <= usize::MAX
        &&& self.copy.valid()
        &&& !(self.copy.step is Done)
        &&& self.index < sizes.len() ==> self.copy.size == sizes[self.index as int]
        &&& self.index == sizes.len() ==> !self.copy.write_failed
        &&& self.failed_writes <= self.index + if self.copy.write_failed {
            1int
        } else {
            0int
        }
    }

    /// The writing of `entries` at its start.
    pub fn new(entries: &[GmaEntry]) -> (state: SequentialWrite)
        ensures
            state == SequentialWrite::begin(sizes(entries@)),
            state.valid(sizes(entries@)),
    {
        let size = if entries.len() > 0 {
            entries[0].size
        } else {
            0
        };
        SequentialWrite { index: 0, copy: StreamCopy::new(size), failed_writes: 0 }
    }

    /// Whether each of `count` entries has been written or given up.
    pub open spec fn has_done(self, count: nat) -> bool {
        self.index >= count
    }

    /// Whether every entry has been written or given up.
    pub fn is_over(&self, entries: &[GmaEntry]) -> (yes: bool)
        ensures
            yes == (self.index >= entries@.len()),
            yes == self.has_done(entries@.len()),
    {
        self.index >= entries.len()
    }

    /// The end of the writing: an error if there are files that could not be written.
    pub fn finish(&self) -> (out: Result<(), FastGmadError>)
        ensures
            self.failed_writes == 0 ==> out is Ok,
            self.failed_writes > 0 ==> {
                &&& out matches Err(e)
                &&& e@ == ErrorView::unwritten(self.failed_writes as nat)
            },
            crate::error::error_of(out) == crate::error::end_of_writes(self.failed_writes as nat),
    {
        finish_failed_writes(self.failed_writes)
    }
}

/// Takes the writing of `entries` one step further: `outcome` is what became of the step that was
/// to be done for the entry at hand. A file that cannot be written is counted and given up; a
/// stream that breaks off is an error.
pub fn write_entries_sequential(
    state: &mut SequentialWrite,
    entries: &[GmaEntry],
    outcome: Result<(), IoFailure>,
) -> (out: Result<(), FastGmadError>)
    requires
        old(state).valid(sizes(entries@)),
        old(state).index < entries@.len(),
    ensures
        *final(state) == old(state).next(sizes(entries@), outcome is Ok),
        final(state).valid(sizes(entries@)),
        out is Err <==> {
            &&& outcome is Err
            &&& old(state).copy.step is Read || old(state).copy.step is Skip
        },
        out is Err <==> final(state).copy.step is Broken && !(old(state).copy.step is Broken),
        out matches Err(e) ==> e@ == ErrorView::entry(
            outcome->Err_0@,
            entries@[old(state).index as int].path@,
        ),
{
    let out = write_entry_streaming(
        &mut state.copy,
        &entries[state.index].path,
        outcome,
        &mut state.failed_writes,
    );
    if matches!(state.copy.step, StreamStep::Done) {
        state.index = state.index + 1;
        let size = if state.index < entries.len() {
            entries[state.index].size
        } else {
            0
        };
        state.copy = StreamCopy::new(size);
    }
    out
}

/// What a writing of entries has come to.
#[verifier::ext_equal]
pub struct SequentialWorld {
    /// The stream, and the file of the entry at hand.
    pub now: StreamWorld,
    /// For each entry that is done what its file holds, or nothing if it could not be written.
    pub files: Seq<Option<Seq<u8>>>,
}

/// How far the writing of entries is after steps with these outcomes, and what it has come to.
pub open spec fn sequential_run(
    sizes: Seq<u64>,
    start: StreamWorld,
    outcomes: Seq<bool>,
) -> (SequentialWrite, SequentialWorld)
    decreases outcomes.len(),
{
    if outcomes.len() == 0 {
        (SequentialWrite::begin(sizes), SequentialWorld { now: start, files: Seq::empty() })
    } else {
        let (state, world) = sequential_run(sizes, start, outcomes.drop_last());
        if state.index >= sizes.len() {
            (state, world)
        } else {
            let worked = outcomes.last();
            let copy = state.copy.next(worked);
            let now = world.now.after(state.copy.step, worked);
            let files = if copy.step is Done {
                world.files.push(
                    if copy.write_failed {
                        None
                    } else {
                        Some(now.file)
                    },
                )
            } else {
                world.files
            };
            (state.next(sizes, worked), SequentialWorld { now, files })
        }
    }
}

/// Whether steps can have these outcomes one after the other.
pub open spec fn sequential_run_possible(
    sizes: Seq<u64>,
    start: StreamWorld,
    outcomes: Seq<bool>,
) -> bool
    decreases outcomes.len(),
{
    outcomes.len() > 0 ==> {
        let (state, world) = sequential_run(sizes, start, outcomes.drop_last());
        &&& sequential_run_possible(sizes, start, outcomes.drop_last())
        &&& state.index < sizes.len() ==> world.now.allows(state.copy.step, outcomes.last())
    }
}

/// How many bytes the contents of the first `n` entries are together.
pub open spec fn sum_first(sizes: Seq<u64>, n: int) -> int
    decreases n,
{
    if n <= 0 {
        0
    } else {
        sum_first(sizes, n - 1) + sizes[n - 1]
    }
}

/// More entries are together no fewer bytes.
pub proof fn lemma_sum_first(sizes: Seq<u64>, n: int, m: int)
    requires
        0 <= n <= m <= sizes.len(),
    ensures
        0 <= sum_first(sizes, n) <= sum_first(sizes, m),
    decreases m,
{
    if n < m {
        lemma_sum_first(sizes, n, m - 1);
    } else if n > 0 {
        lemma_sum_first(sizes, n - 1, n - 1);
    }
}

/// How many of `files` there are none of.
pub open spec fn missing(files: Seq<Option<Seq<u8>>>) -> nat
    decreases files.len(),
{
    if files.len() == 0 {
        0
    } else {
        missing(files.drop_last()) + if files.last() is None {
            1nat
        } else {
            0nat
        }
    }
}

/// The contents of the entry at `i`: the bytes of the stream behind those of the entries before.
pub open spec fn contents_at(sizes: Seq<u64>, start: StreamWorld, i: int) -> Seq<u8> {
    start.stream.subrange(
        start.pos + sum_first(sizes, i),
        start.pos + sum_first(sizes, i + 1),
    )
}

/// What holds of a writing of entries at any time.
pub open spec fn sequential_in_step(
    sizes: Seq<u64>,
    start: StreamWorld,
    state: SequentialWrite,
    world: SequentialWorld,
) -> bool {
    let entry_start = StreamWorld { pos: start.pos + sum_first(sizes, state.index as int), ..start };
    &&& state.valid(sizes)
    &&& world.files.len() == state.index
    &&& crate::copy_laws::stream_in_step(state.copy, world.now, entry_start)
    &&& state.failed_writes == missing(world.files) + if state.copy.write_failed {
        1int
    } else {
        0int
    }
    &&& state.index == sizes.len() ==> world.now.pos == entry_start.pos
    &&& forall|i: int|
        0 <= i < world.files.len() ==> ((#[trigger] world.files[i]) matches Some(file) ==> file
            == contents_at(sizes, start, i))
}

/// Any number of steps keeps a writing of entries in step with its world.
pub proof fn lemma_sequential_run(sizes: Seq<u64>, start: StreamWorld, outcomes: Seq<bool>)
    requires
        sizes.len() <= usize::MAX,
        start.valid(),
        sequential_run_possible(sizes, start, outcomes),
    ensures
        ({
            let (state, world) = sequential_run(sizes, start, outcomes);
            sequential_in_step(sizes, start, state, world)
        }),
    decreases outcomes.len(),
{
    if outcomes.len() > 0 {
        lemma_sequential_run(sizes, start, outcomes.drop_last());
        let (state, world) = sequential_run(sizes, start, outcomes.drop_last());
        let worked = outcomes.last();
        if state.index < sizes.len() {
            let i = state.index as int;
            let entry_start = StreamWorld { pos: start.pos + sum_first(sizes, i), ..start };
            crate::copy_laws::lemma_stream_step(state.copy, world.now, entry_start, worked);
            let (after, world_after) = sequential_run(sizes, start, outcomes);
            if state.copy.next(worked).step is Done {
                assert(world_after.files.drop_last() =~= world.files);
                assert(world_after.now.pos == start.pos + sum_first(sizes, i + 1));
            }
        }
    }
}

/// However the steps of a writing of entries go: an entry that is done has left exactly its own
/// contents in its file or was given up; as many as were given up are counted; and when all are
/// done, the stream is right behind the contents of the last of them.
pub proof fn law_sequential_write(sizes: Seq<u64>, start: StreamWorld, outcomes: Seq<bool>)
    requires
        sizes.len() <= usize::MAX,
        start.valid(),
        sequential_run_possible(sizes, start, outcomes),
    ensures
        ({
            let (state, world) = sequential_run(sizes, start, outcomes);
            &&& world.files.len() == state.index <= sizes.len()
            &&& start.pos + sum_first(sizes, state.index as int) <= start.stream.len()
            &&& forall|i: int|
                0 <= i < world.files.len() ==> ((#[trigger] world.files[i]) matches Some(file)
                    ==> file == contents_at(sizes, start, i))
            &&& state.index == sizes.len() ==> {
                &&& state.failed_writes == missing(world.files)
                &&& world.now.pos == start.pos + sum_first(sizes, sizes.len() as int)
            }
        }),
{
    lemma_sequential_run(sizes, start, outcomes);
}

/// A writing of entries of which none is given up and none breaks off has left in every file
/// exactly the contents of its entry.
pub proof fn law_sequential_write_complete(sizes: Seq<u64>, start: StreamWorld, outcomes: Seq<bool>)
    requires
        sizes.len() <= usize::MAX,
        start.valid(),
        sequential_run_possible(sizes, start, outcomes),
        sequential_run(sizes, start, outcomes).0.index == sizes.len(),
        sequential_run(sizes, start, outcomes).0.failed_writes == 0,
    ensures
        sequential_run(sizes, start, outcomes).1.files == Seq::new(
            sizes.len(),
            |i: int| Some(contents_at(sizes, start, i)),
        ),
{
    lemma_sequential_run(sizes, start, outcomes);
    let files = sequential_run(sizes, start, outcomes).1.files;
    lemma_none_missing(files);
    assert(files =~= Seq::new(sizes.len(), |i: int| Some(contents_at(sizes, start, i))));
}

/// Where no file is missing, each is there.
proof fn lemma_none_missing(files: Seq<Option<Seq<u8>>>)
    requires
        missing(files) == 0,
    ensures
        forall|i: int| 0 <= i < files.len() ==> (#[trigger] files[i]) is Some,
    decreases files.len(),
{
    if files.len() > 0 {
        lemma_none_missing(files.drop_last());
        assert forall|i: int| 0 <= i < files.len() implies (#[trigger] files[i]) is Some by {
            if i < files.len() - 1 {
                assert(files.drop_last()[i] is Some);
            }
        }
    }
}

} // verus!
