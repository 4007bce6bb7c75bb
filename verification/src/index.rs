//! The index of an archive: which entries it has, where their contents lie and where they go.

use vstd::hash_set::StringHashSet;
use vstd::prelude::*;

use crate::conf::ExtractGmaConfig;
use crate::error::{gma_err, map_io, ErrorView, FastGmadError};
use crate::names::{bad_key_of, bad_path, entry_path, place_key_of, NameFault};
use crate::path::{OsPath, PathKey, PathKeyView, PathView, Platform};
use crate::reader::{read_u32_le, read_u64_le, Parsed, Reader};

verus! {

/// An entry as the index lists it: a name, and how many bytes of contents there are.
#[verifier::ext_equal]
pub struct RawEntry {
    pub name: Seq<u8>,
    pub size: nat,
}

/// An entry of an archive.
#[derive(Debug)]
pub struct GmaEntry {
    /// The name that the archive gives it.
    pub name: Vec<u8>,
    /// Where the entry goes.
    pub path: OsPath,
    /// How many bytes come before its contents.
    pub offset: u64,
    /// How many bytes its contents are.
    pub size: u64,
    /// What is wrong with its name.
    pub fault: Option<NameFault>,
}

/// What a [`GmaEntry`] holds.
#[verifier::ext_equal]
pub struct EntryView {
    pub name: Seq<u8>,
    pub path: PathView,
    pub offset: nat,
    pub size: nat,
    pub fault: Option<NameFault>,
}

impl View for GmaEntry {
    type V = EntryView;

    open spec fn view(&self) -> EntryView {
        EntryView {
            name: self.name@,
            path: self.path@,
            offset: self.offset as nat,
            size: self.size as nat,
            fault: self.fault,
        }
    }
}

/// What a list of entries holds.
pub open spec fn entry_views(entries: Seq<GmaEntry>) -> Seq<EntryView> {
    entries.map_values(|e: GmaEntry| e@)
}

/// How many bytes the contents of the listed entries are together.
pub open spec fn total(raw: Seq<RawEntry>) -> nat
    decreases raw.len(),
{
    if raw.len() == 0 {
        0
    } else {
        total(raw.drop_last()) + raw.last().size
    }
}

/// How many bytes the contents of `entries` are together.
pub open spec fn sum_sizes(entries: Seq<EntryView>) -> nat
    decreases entries.len(),
{
    if entries.len() == 0 {
        0
    } else {
        sum_sizes(entries.drop_last()) + entries.last().size
    }
}

/// The index that starts at `pos`: for each entry a number that is not zero, the name, the size
/// and a checksum; then the number zero. The sizes, with `offset` before them, must add up to a
/// 64-bit number.
pub open spec fn index_from(data: Seq<u8>, pos: int, offset: nat) -> Parsed<Seq<RawEntry>>
    decreases data.len() - pos,
{
    if pos < 0 || pos + 4 > data.len() {
        Parsed::Ended("reading file index"@)
    } else if crate::reader::le_value(data.subrange(pos, pos + 4)) == 0 {
        Parsed::Done(Seq::empty(), pos + 4)
    } else {
        proof {
            crate::reader::lemma_nul_from(data, pos + 4);
        }
        match crate::reader::nul_from(data, pos + 4) {
            None => Parsed::Ended("reading file index"@),
            Some(nul) => {
                let size = crate::reader::le_value(data.subrange(nul + 1, nul + 9));
                if nul + 13 > data.len() {
                    Parsed::Ended("reading file index"@)
                } else if offset + size > u64::MAX {
                    Parsed::Fault("file index is too large"@)
                } else {
                    preceded_by(
                        seq![RawEntry { name: data.subrange(pos + 4, nul), size }],
                        index_from(data, nul + 13, offset + size),
                    )
                }
            },
        }
    }
}

/// `rest`, with the entries `raw` before those that it lists.
pub open spec fn preceded_by(raw: Seq<RawEntry>, rest: Parsed<Seq<RawEntry>>) -> Parsed<
    Seq<RawEntry>,
> {
    match rest {
        Parsed::Done(more, next) => Parsed::Done(raw + more, next),
        other => other,
    }
}

/// The keys of the names that the entries `raw` have taken.
pub open spec fn taken(platform: Platform, raw: Seq<RawEntry>) -> Set<Seq<char>>
    decreases raw.len(),
{
    if raw.len() == 0 {
        Set::empty()
    } else {
        let before = taken(platform, raw.drop_last());
        if crate::names::fault(platform, raw.last().name, before) is None {
            before.insert(crate::names::name_key(platform, raw.last().name))
        } else {
            before
        }
    }
}

/// The places that entries were given.
#[verifier::ext_equal]
pub struct Places {
    /// Those of the entries that go by their names.
    pub good: Set<Seq<char>>,
    /// Those of the entries whose names are bad.
    pub bad: Set<Seq<char>>,
    /// The first number for a bad name that was not tried yet.
    pub next: nat,
}

/// Whether `n` is the first number from `from` on whose place is none of `good`.
pub open spec fn is_free_number(good: Set<Seq<char>>, from: nat, n: nat) -> bool {
    &&& from <= n
    &&& !good.contains(crate::names::bad_key(n))
    &&& forall|k: nat| from <= k < n ==> good.contains(#[trigger] crate::names::bad_key(k))
}

impl Places {
    /// None is given yet.
    pub open spec fn begin() -> Places {
        Places { good: Set::empty(), bad: Set::empty(), next: 0 }
    }

    /// The number for the next bad name: the first one whose place no entry goes to by its name.
    pub open spec fn number(self) -> nat {
        choose|n: nat| is_free_number(self.good, self.next, n)
    }

    /// Whether the place that `name` stands for was given to an entry whose name is bad.
    pub open spec fn is_occupied(self, platform: Platform, name: Seq<u8>) -> bool {
        crate::names::place_key(platform, name) matches Some(key) && self.bad.contains(key)
    }

    /// What is wrong with the entry name `name` where the names with the keys `seen` are taken.
    pub open spec fn fault(
        self,
        platform: Platform,
        name: Seq<u8>,
        seen: Set<Seq<char>>,
    ) -> Option<NameFault> {
        let fault = crate::names::fault(platform, name, seen);
        if fault is None && self.is_occupied(platform, name) {
            Some(NameFault::Occupied)
        } else {
            fault
        }
    }

    /// The places after an entry with the name `name` has gone to it.
    pub open spec fn with_good(self, platform: Platform, name: Seq<u8>) -> Places {
        match crate::names::place_key(platform, name) {
            Some(key) => Places { good: self.good.insert(key), ..self },
            None => self,
        }
    }

    /// The places after another entry whose name is bad.
    pub open spec fn with_bad(self) -> Places {
        Places {
            bad: self.bad.insert(crate::names::bad_key(self.number())),
            next: self.number() + 1,
            ..self
        }
    }
}

/// The places that the entries `raw` are given.
pub open spec fn places(platform: Platform, raw: Seq<RawEntry>) -> Places
    decreases raw.len(),
{
    if raw.len() == 0 {
        Places::begin()
    } else {
        let before = places(platform, raw.drop_last());
        let name = raw.last().name;
        if before.fault(platform, name, taken(platform, raw.drop_last())) is None {
            before.with_good(platform, name)
        } else {
            before.with_bad()
        }
    }
}

/// What is wrong with the name of `entry`, which comes right behind the entries `before`.
pub open spec fn fault_after(platform: Platform, before: Seq<RawEntry>, entry: RawEntry) -> Option<
    NameFault,
> {
    places(platform, before).fault(platform, entry.name, taken(platform, before))
}

/// Where `entry`, which comes right behind the entries `before`, goes and lies: below `out` by its
/// name if that is good and else among the bad names, and behind the contents of the others.
pub open spec fn placed_after(out: PathView, before: Seq<RawEntry>, entry: RawEntry) -> EntryView {
    let fault = fault_after(out.platform, before, entry);
    EntryView {
        name: entry.name,
        path: if fault is None {
            out.join(entry.name)
        } else {
            crate::names::bad_place(out, places(out.platform, before).number())
        },
        offset: total(before),
        size: entry.size,
        fault,
    }
}

/// Where the entries `raw` go and lie.
pub open spec fn placed(out: PathView, raw: Seq<RawEntry>) -> Seq<EntryView>
    decreases raw.len(),
{
    if raw.len() == 0 {
        Seq::empty()
    } else {
        placed(out, raw.drop_last()).push(placed_after(out, raw.drop_last(), raw.last()))
    }
}

/// Placing entries keeps their sizes.
pub proof fn lemma_placed_total(out: PathView, raw: Seq<RawEntry>)
    ensures
        placed(out, raw).len() == raw.len(),
        sum_sizes(placed(out, raw)) == total(raw),
    decreases raw.len(),
{
    if raw.len() > 0 {
        lemma_placed_total(out, raw.drop_last());
        assert(placed(out, raw).drop_last() =~= placed(out, raw.drop_last()));
    }
}

/// Different numbers have different places.
pub proof fn lemma_bad_key_injective(a: nat, b: nat)
    requires
        crate::names::bad_key(a) == crate::names::bad_key(b),
    ensures
        a == b,
{
    let front = "badnames/"@;
    let back = ".unk"@;
    let ka = crate::names::bad_key(a);
    let kb = crate::names::bad_key(b);
    let da = crate::text::decimal(a);
    let db = crate::text::decimal(b);
    assert(ka.len() == front.len() + da.len() + back.len());
    assert(da =~= ka.subrange(front.len() as int, (front.len() + da.len()) as int));
    assert(db =~= kb.subrange(front.len() as int, (front.len() + db.len()) as int));
    crate::text::lemma_decimal_injective(a, b);
}

/// A set that holds the places of the numbers from `from` up to `to` has at least as many members.
proof fn lemma_many_places(set: Set<Seq<char>>, from: nat, to: nat)
    requires
        set.finite(),
        from <= to,
        forall|k: nat| from <= k < to ==> set.contains(#[trigger] crate::names::bad_key(k)),
    ensures
        to - from <= set.len(),
    decreases to - from,
{
    if from < to {
        let last = (to - 1) as nat;
        let key = crate::names::bad_key(last);
        assert(set.contains(key));
        let rest = set.remove(key);
        assert forall|k: nat| from <= k < last implies rest.contains(
            #[trigger] crate::names::bad_key(k),
        ) by {
            if crate::names::bad_key(k) == key {
                lemma_bad_key_injective(k, last);
            }
        }
        lemma_many_places(rest, from, last);
    }
}

/// There is only one first number.
pub proof fn lemma_free_number_unique(places: Places, n: nat)
    requires
        is_free_number(places.good, places.next, n),
    ensures
        places.number() == n,
{
    let m = places.number();
    assert(is_free_number(places.good, places.next, m));
    if m < n {
        assert(places.good.contains(crate::names::bad_key(m)));
    }
    if n < m {
        assert(places.good.contains(crate::names::bad_key(n)));
    }
}

/// There is a number for the next bad name.
pub proof fn lemma_free_number_exists(places: Places, from: nat)
    requires
        places.good.finite(),
        places.next <= from,
        forall|k: nat|
            places.next <= k < from ==> places.good.contains(#[trigger] crate::names::bad_key(k)),
    ensures
        is_free_number(places.good, places.next, places.number()),
    decreases places.next + places.good.len() + 1 - from,
{
    lemma_many_places(places.good, places.next, from);
    if !places.good.contains(crate::names::bad_key(from)) {
        assert(is_free_number(places.good, places.next, from));
    } else {
        lemma_free_number_exists(places, from + 1);
    }
}

/// What holds of the places that entries were given: those of the bad names are numbered, every
/// number that was tried has a place, and there are no more places than entries.
pub open spec fn places_in_step(places: Places, count: nat) -> bool {
    &&& places.good.finite()
    &&& places.bad.finite()
    &&& places.good.len() + places.bad.len() <= count
    &&& forall|k: nat|
        k < places.next ==> places.good.contains(#[trigger] crate::names::bad_key(k))
            || places.bad.contains(crate::names::bad_key(k))
    &&& forall|key: Seq<char>| #[trigger]
        places.bad.contains(key) ==> exists|k: nat|
            k < places.next && #[trigger] crate::names::bad_key(k) == key
}

/// Another entry keeps the places in step.
pub proof fn lemma_places_step(places: Places, count: nat, platform: Platform, name: Seq<u8>)
    requires
        places_in_step(places, count),
    ensures
        places_in_step(places.with_good(platform, name), count + 1),
        places_in_step(places.with_bad(), count + 1),
        is_free_number(places.good, places.next, places.number()),
{
    lemma_free_number_exists(places, places.next);
    let n = places.number();
    let next = places.with_bad();
    assert forall|k: nat| k < next.next implies next.good.contains(
        #[trigger] crate::names::bad_key(k),
    ) || next.bad.contains(crate::names::bad_key(k)) by {
        if k < places.next {
            assert(places.good.contains(crate::names::bad_key(k)) || places.bad.contains(
                crate::names::bad_key(k),
            ));
        }
    }
    assert forall|key: Seq<char>| #[trigger] next.bad.contains(key) implies exists|k: nat|
        k < next.next && #[trigger] crate::names::bad_key(k) == key by {
        if key == crate::names::bad_key(n) {
            assert(n < next.next);
        } else {
            let k = choose|k: nat| k < places.next && #[trigger] crate::names::bad_key(k) == key;
            assert(k < next.next && crate::names::bad_key(k) == key);
        }
    }
}

/// The places that a list of entries is given are in step.
pub proof fn lemma_places(platform: Platform, raw: Seq<RawEntry>)
    ensures
        places_in_step(places(platform, raw), raw.len()),
    decreases raw.len(),
{
    if raw.len() > 0 {
        lemma_places(platform, raw.drop_last());
        lemma_places_step(
            places(platform, raw.drop_last()),
            (raw.len() - 1) as nat,
            platform,
            raw.last().name,
        );
    }
}

/// The numbers that were tried are no more than the entries.
proof fn lemma_numbers_are_few(places: Places, count: nat, to: nat)
    requires
        places_in_step(places, count),
        places.next <= to,
        forall|k: nat|
            places.next <= k < to ==> places.good.contains(#[trigger] crate::names::bad_key(k)),
    ensures
        to <= count,
{
    let both = places.good.union(places.bad);
    assert forall|k: nat| k < to implies both.contains(#[trigger] crate::names::bad_key(k)) by {
        if k < places.next {
            assert(places.good.contains(crate::names::bad_key(k)) || places.bad.contains(
                crate::names::bad_key(k),
            ));
        }
    }
    vstd::set_lib::lemma_set_union_finite_iff(places.good, places.bad);
    lemma_many_places(both, 0, to);
    vstd::set_lib::lemma_len_union(places.good, places.bad);
}

/// The places that were given, as the index is read.
struct PlaceBook {
    good: StringHashSet,
    bad: StringHashSet,
    next: u64,
}

impl View for PlaceBook {
    type V = Places;

    closed spec fn view(&self) -> Places {
        Places { good: self.good@, bad: self.bad@, next: self.next as nat }
    }
}

impl PlaceBook {
    /// No place is given yet.
    fn new() -> (book: PlaceBook)
        ensures
            book@ == Places::begin(),
    {
        PlaceBook { good: StringHashSet::new(), bad: StringHashSet::new(), next: 0 }
    }

    /// A place for an entry whose name is bad: `first`, the place of the number before the next one,
    /// if no entry goes there by its name, and else the next one of which that holds.
    fn give_bad(&mut self, out: &OsPath, first: OsPath, Ghost(before): Ghost<Places>, Ghost(
        count,
    ): Ghost<nat>) -> (path: OsPath)
        requires
            places_in_step(before, count),
            count < u64::MAX,
            old(self)@ == (Places { next: before.next + 1, ..before }),
            first@ == crate::names::bad_place(out@, before.next),
        ensures
            path@ == crate::names::bad_place(out@, before.number()),
            final(self)@ == before.with_bad(),
    {
        let mut path = first;
        let mut key = bad_key_of(self.next - 1);
        while self.good.contains(key.as_str())
            invariant
                places_in_step(before, count),
                count < u64::MAX,
                before.next < self@.next,
                self@ == (Places { next: self@.next, ..before }),
                key@ == crate::names::bad_key((self@.next - 1) as nat),
                path@ == crate::names::bad_place(out@, (self@.next - 1) as nat),
                forall|k: nat|
                    before.next <= k < self@.next - 1 ==> before.good.contains(
                        #[trigger] crate::names::bad_key(k),
                    ),
            decreases u64::MAX - self.next,
        {
            proof {
                lemma_numbers_are_few(before, count, self@.next);
            }
            key = bad_key_of(self.next);
            path = bad_path(out, &mut self.next);
        }
        proof {
            lemma_free_number_unique(before, (self@.next - 1) as nat);
        }
        self.bad.insert(key);
        path
    }

    /// Where the entry with the name `raw` goes, and what is wrong with its name.
    fn give(&mut self, out: &OsPath, raw: &[u8], seen: &mut StringHashSet, Ghost(count): Ghost<
        nat,
    >) -> (place: (OsPath, Option<NameFault>))
        requires
            places_in_step(old(self)@, count),
            count < u64::MAX,
        ensures
            place.1 == old(self)@.fault(out@.platform, raw@, old(seen)@),
            final(seen)@ == if crate::names::fault(out@.platform, raw@, old(seen)@) is None {
                old(seen)@.insert(crate::names::name_key(out@.platform, raw@))
            } else {
                old(seen)@
            },
            match place.1 {
                None => {
                    &&& place.0@ == out@.join(raw@)
                    &&& final(self)@ == old(self)@.with_good(out@.platform, raw@)
                },
                Some(_) => {
                    &&& place.0@ == crate::names::bad_place(out@, old(self)@.number())
                    &&& final(self)@ == old(self)@.with_bad()
                },
            },
    {
        let ghost before = self@;
        proof {
            lemma_numbers_are_few(before, count, before.next);
        }
        let (path, fault) = entry_path(out, raw, &mut self.next, seen);
        if fault.is_some() {
            return (self.give_bad(out, path, Ghost(before), Ghost(count)), fault);
        }
        match place_key_of(out.platform, raw) {
            Some(key) => {
                if self.bad.contains(key.as_str()) {
                    let first = bad_path(out, &mut self.next);
                    let place = self.give_bad(out, first, Ghost(before), Ghost(count));
                    return (place, Some(NameFault::Occupied));
                }
                self.good.insert(key);
            },
            None => {},
        }
        (path, None)
    }
}

/// Reads the index. The entries go below the output folder of `conf`; offsets count from the first
/// byte behind the index.
pub fn read_index(conf: &ExtractGmaConfig, r: &mut Reader) -> (out: Result<
    Vec<GmaEntry>,
    FastGmadError,
>)
    requires
        old(r)@.valid(),
    ensures
        final(r)@.valid(),
        match index_from(old(r)@.data, old(r)@.pos, 0) {
            Parsed::Ended(context) => {
                &&& out matches Err(e)
                &&& e@ == ErrorView::reading(old(r)@.end, context)
                &&& final(r)@.ran_out
            },
            Parsed::Fault(message) => {
                &&& out matches Err(e)
                &&& e@ == ErrorView::gma(message)
                &&& final(r)@.ran_out == old(r)@.ran_out
            },
            Parsed::Done(raw, next) => {
                &&& out matches Ok(entries)
                &&& entry_views(entries@) == placed(conf.out@, raw)
                &&& sum_sizes(entry_views(entries@)) <= u64::MAX
                &&& final(r)@ == old(r)@.moved_to(next)
            },
        },
{
    let ghost start = r@;
    let ghost platform = conf.out@.platform;
    let ghost mut raw: Seq<RawEntry> = Seq::empty();
    let mut entries: Vec<GmaEntry> = Vec::new();
    let mut offset: u64 = 0;
    let mut book = PlaceBook::new();
    let mut seen = StringHashSet::new();
    proof {
        assert(entry_views(entries@) =~= placed(conf.out@, raw));
        let all = index_from(start.data, start.pos, 0);
        if let Parsed::Done(more, next) = all {
            assert(raw + more =~= more);
        }
        assert(preceded_by(raw, all) == all);
    }
    loop
        invariant
            start == old(r)@,
            platform == conf.out@.platform,
            r@.valid(),
            r@ == start.moved_to(r@.pos),
            raw.len() <= r@.pos,
            entry_views(entries@) == placed(conf.out@, raw),
            offset == total(raw),
            book@ == places(platform, raw),
            seen@ == taken(platform, raw),
            preceded_by(raw, index_from(start.data, r@.pos, offset as nat)) == index_from(
                start.data,
                start.pos,
                0,
            ),
        decreases r@.data.len() - r@.pos,
    {
        let ghost here = r@.pos;
        let file_id = match map_io(read_u32_le(r), "reading file index") {
            Ok(id) => id,
            Err(e) => return Err(e),
        };
        if file_id == 0 {
            assert(raw + Seq::<RawEntry>::empty() =~= raw);
            proof {
                lemma_placed_total(conf.out@, raw);
            }
            return Ok(entries);
        }
        let name = match map_io(r.read_nul_str(), "reading file index") {
            Ok(name) => name,
            Err(e) => return Err(e),
        };
        let size = match map_io(read_u64_le(r), "reading file index") {
            Ok(size) => size,
            Err(e) => return Err(e),
        };
        match map_io(r.skip(4), "reading file index") {
            Ok(_) => {},
            Err(e) => return Err(e),
        }
        let entry_offset = offset;
        offset = match offset.checked_add(size) {
            Some(next) => next,
            None => return Err(gma_err(String::from_str("file index is too large"))),
        };
        proof {
            lemma_places(platform, raw);
        }
        let (path, fault) = book.give(&conf.out, name, &mut seen, Ghost(raw.len()));
        let ghost entry = RawEntry { name: name@, size: size as nat };
        let ghost listed = entry_views(entries@);
        entries.push(
            GmaEntry {
                name: vstd::slice::slice_to_vec(name),
                path,
                offset: entry_offset,
                size,
                fault,
            },
        );
        proof {
            let before = raw;
            raw = raw.push(entry);
            assert(raw.drop_last() =~= before);
            assert(entry_views(entries@) =~= listed.push(placed_after(conf.out@, before, entry)));
            let rest = index_from(start.data, r@.pos, offset as nat);
            if let Parsed::Done(more, next) = rest {
                assert(before + (seq![entry] + more) =~= raw + more);
            }
        }
    }
}

/// How many bytes the contents of `entries` are together.
pub fn total_size(entries: &[GmaEntry]) -> (sum: u64)
    requires
        sum_sizes(entry_views(entries@)) <= u64::MAX,
    ensures
        sum == sum_sizes(entry_views(entries@)),
{
    let ghost all = entry_views(entries@);
    let mut sum: u64 = 0;
    let mut i: usize = 0;
    while i < entries.len()
        invariant
            i <= entries@.len(),
            all == entry_views(entries@),
            sum_sizes(all) <= u64::MAX,
            sum == sum_sizes(all.take(i as int)),
        decreases entries@.len() - i,
    {
        proof {
            assert(all.take(i + 1).drop_last() =~= all.take(i as int));
            lemma_sum_sizes_take(all, i + 1);
        }
        sum = sum + entries[i].size;
        i = i + 1;
    }
    assert(all.take(i as int) =~= all);
    sum
}

/// The first entries of a list are together no larger than all of them.
proof fn lemma_sum_sizes_take(entries: Seq<EntryView>, n: int)
    requires
        0 <= n <= entries.len(),
    ensures
        sum_sizes(entries.take(n)) <= sum_sizes(entries),
    decreases entries.len(),
{
    if n < entries.len() {
        lemma_sum_sizes_take(entries.drop_last(), n);
        assert(entries.drop_last().take(n) =~= entries.take(n));
    } else {
        assert(entries.take(n) =~= entries);
    }
}

/// `entry`, with its offset counted from `data_start` bytes further ahead.
pub open spec fn shifted(entry: EntryView, data_start: nat) -> EntryView {
    EntryView { offset: entry.offset + data_start, ..entry }
}

/// Makes the offsets of `entries`, which count from the first byte behind the index, count from
/// the start of the file instead; `data_start` bytes lie between the two.
pub fn locate_entries(entries: Vec<GmaEntry>, data_start: u64) -> (out: Result<
    Vec<GmaEntry>,
    FastGmadError,
>)
    ensures
        match out {
            Ok(located) => entry_views(located@) == entry_views(entries@).map_values(
                |e: EntryView| shifted(e, data_start as nat),
            ),
            Err(e) => {
                &&& e@ == ErrorView::gma("GMA file index is too large"@)
                &&& exists|i: int|
                    0 <= i < entries@.len() && #[trigger] entries@[i].offset + data_start
                        > u64::MAX
            },
        },
        out is Ok ==> forall|i: int|
            0 <= i < entries@.len() ==> #[trigger] entries@[i].offset + data_start <= u64::MAX,
{
    let ghost given = entries@;
    let mut located = entries;
    let mut i: usize = 0;
    while i < located.len()
        invariant
            i <= located@.len(),
            located@.len() == given.len(),
            given == entries@,
            forall|j: int|
                0 <= j < i ==> (#[trigger] located@[j])@ == shifted(given[j]@, data_start as nat),
            forall|j: int| 0 <= j < i ==> #[trigger] given[j].offset + data_start <= u64::MAX,
            forall|j: int| i <= j < located@.len() ==> located@[j] == given[j],
        decreases located@.len() - i,
    {
        assert(located@[i as int] == given[i as int]);
        match located[i].offset.checked_add(data_start) {
            Some(offset) => {
                located[i].offset = offset;
            },
            None => {
                assert(given[i as int].offset + data_start > u64::MAX);
                return Err(gma_err(String::from_str("GMA file index is too large")));
            },
        }
        i = i + 1;
    }
    assert(entry_views(located@) =~= entry_views(given).map_values(
        |e: EntryView| shifted(e, data_start as nat),
    ));
    Ok(located)
}

/// What a list of paths holds.
pub open spec fn path_views(paths: Seq<OsPath>) -> Seq<PathView> {
    paths.map_values(|p: OsPath| p@)
}

/// The keys of `paths`.
pub open spec fn path_keys(paths: Seq<PathView>) -> Seq<PathKeyView> {
    paths.map_values(|p: PathView| p.key())
}

/// Whether `dirs` are the folders that `entries` lie in: each is the folder of an entry, and each
/// entry has its folder among them, just once though it may be spelled in several ways.
pub open spec fn are_folders_of(dirs: Seq<PathView>, entries: Seq<EntryView>) -> bool {
    &&& path_keys(dirs).no_duplicates()
    &&& forall|d: int|
        0 <= d < dirs.len() ==> exists|i: int|
            0 <= i < entries.len() && (#[trigger] entries[i]).path.parent() == Some(
                #[trigger] dirs[d],
            )
    &&& forall|i: int|
        0 <= i < entries.len() ==> ((#[trigger] entries[i]).path.parent() matches Some(dir)
            ==> path_keys(dirs).contains(dir.key()))
}

/// The folders to create so that each of `entries` has one to go to: each folder once, spelled as
/// the first entry in it has it.
pub fn create_output_dirs(entries: &[GmaEntry]) -> (dirs: Vec<OsPath>)
    ensures
        are_folders_of(path_views(dirs@), entry_views(entries@)),
{
    let ghost all = entry_views(entries@);
    let mut dirs: Vec<OsPath> = Vec::new();
    let mut keys: Vec<PathKey> = Vec::new();
    let mut i: usize = 0;
    assert(all.take(0) =~= Seq::empty());
    assert(key_views(keys@) =~= path_keys(path_views(dirs@)));
    while i < entries.len()
        invariant
            i <= entries@.len(),
            all == entry_views(entries@),
            key_views(keys@) == path_keys(path_views(dirs@)),
            are_folders_of(path_views(dirs@), all.take(i as int)),
        decreases entries@.len() - i,
    {
        let ghost before = path_views(dirs@);
        let ghost known = path_keys(before);
        let ghost done = all.take(i as int);
        let ghost next = all.take(i + 1);
        assert(next =~= done.push(entries@[i as int]@));
        match entries[i].path.parent() {
            None => {},
            Some(dir) => {
                let key = dir.to_key();
                if !is_listed(&keys, &key) {
                    let ghost folder = dir@;
                    keys.push(key);
                    dirs.push(dir);
                    proof {
                        assert(path_views(dirs@) =~= before.push(folder));
                        assert(path_keys(path_views(dirs@)) =~= known.push(folder.key()));
                        assert(key_views(keys@) =~= known.push(folder.key()));
                    }
                }
            },
        }
        proof {
            let after = path_views(dirs@);
            let listed = path_keys(after);
            assert forall|d: int| 0 <= d < after.len() implies exists|k: int|
                0 <= k < next.len() && (#[trigger] next[k]).path.parent() == Some(
                    #[trigger] after[d],
                ) by {
                if d < before.len() {
                    assert(before[d] == after[d]);
                    let k = choose|k: int|
                        0 <= k < done.len() && (#[trigger] done[k]).path.parent() == Some(
                            before[d],
                        );
                    assert(next[k] == done[k]);
                } else {
                    assert(next[i as int].path.parent() == Some(after[d]));
                }
            }
            assert forall|k: int| 0 <= k < next.len() implies ((
            #[trigger] next[k]).path.parent() matches Some(dir) ==> listed.contains(
                dir.key(),
            )) by {
                if next[k].path.parent() is Some {
                    let key = next[k].path.parent()->0.key();
                    if k < i {
                        assert(next[k] == done[k]);
                        let d = known.index_of(key);
                        assert(listed[d] == key);
                    } else if !known.contains(key) {
                        assert(listed[before.len() as int] == key);
                    } else {
                        let d = known.index_of(key);
                        assert(listed[d] == key);
                    }
                }
            }
        }
        i = i + 1;
    }
    assert(all.take(i as int) =~= all);
    dirs
}

/// What a list of keys holds.
spec fn key_views(keys: Seq<PathKey>) -> Seq<PathKeyView> {
    keys.map_values(|k: PathKey| k@)
}

/// Whether `key` is one of `keys`.
fn is_listed(keys: &Vec<PathKey>, key: &PathKey) -> (yes: bool)
    ensures
        yes == key_views(keys@).contains(key@),
{
    let mut i: usize = 0;
    while i < keys.len()
        invariant
            i <= keys@.len(),
            forall|j: int| 0 <= j < i ==> key_views(keys@)[j] != key@,
        decreases keys@.len() - i,
    {
        if keys[i].same_as(key) {
            assert(key_views(keys@)[i as int] == key@);
            return true;
        }
        i = i + 1;
    }
    false
}

} // verus!
