//! Where the entries of an archive go, by their names.

use vstd::hash_set::StringHashSet;
use vstd::prelude::*;
use vstd::string::*;

use crate::path::{push_all, OsPath, PathView, Platform};
use crate::text::{decimal_text, join2, join3, lowercase_text, same_bytes, utf8_text};

verus! {

/// Why an entry cannot have the name that it asks for.
#[derive(Clone, Copy, Debug, PartialEq, Eq, Structural)]
pub enum NameFault {
    NotUtf8,
    Empty,
    Escapes,
    DeviceName,
    Duplicate,
    Occupied,
}

impl NameFault {
    /// The fault in words, to follow the name.
    pub open spec fn words(self) -> Seq<char> {
        match self {
            NameFault::NotUtf8 => "is not valid UTF-8"@,
            NameFault::Empty => "is empty"@,
            NameFault::Escapes => "escapes the output folder"@,
            NameFault::DeviceName => "is a reserved Windows device name"@,
            NameFault::Duplicate => "is a duplicate entry"@,
            NameFault::Occupied => "is the place of another entry"@,
        }
    }

    /// The fault in words, to follow the name.
    pub fn reason(self) -> (text: &'static str)
        ensures
            text@ == self.words(),
    {
        match self {
            NameFault::NotUtf8 => "is not valid UTF-8",
            NameFault::Empty => "is empty",
            NameFault::Escapes => "escapes the output folder",
            NameFault::DeviceName => "is a reserved Windows device name",
            NameFault::Duplicate => "is a duplicate entry",
            NameFault::Occupied => "is the place of another entry",
        }
    }
}

/// `b`, with a small ASCII letter made a capital.
pub open spec fn capital(b: u8) -> u8 {
    if 0x61 <= b <= 0x7a {
        (b - 0x20) as u8
    } else {
        b
    }
}

/// Where the first dot of `name` at or behind `i` is; the end of `name` if there is none.
pub open spec fn dot_from(name: Seq<u8>, i: int) -> int
    decreases name.len() - i,
{
    if i < 0 || i >= name.len() || name[i] == 0x2e {
        i
    } else {
        dot_from(name, i + 1)
    }
}

/// What comes before the first dot of `name`, in capitals.
pub open spec fn capital_stem(name: Seq<u8>) -> Seq<u8> {
    name.take(dot_from(name, 0)).map_values(|b: u8| capital(b))
}

/// The names that Windows keeps for devices: `CON`, `PRN`, `AUX`, `NUL`, and `COM` and `LPT` with
/// a digit from 1 to 9.
pub open spec fn is_reserved(stem: Seq<u8>) -> bool {
    ||| stem == "CON".spec_bytes()
    ||| stem == "PRN".spec_bytes()
    ||| stem == "AUX".spec_bytes()
    ||| stem == "NUL".spec_bytes()
    ||| stem.len() == 4 && 0x31 <= stem[3] <= 0x39 && (stem.take(3) == "COM".spec_bytes()
        || stem.take(3) == "LPT".spec_bytes())
}

/// Whether Windows takes a file of this name for a device, whatever its extension.
pub open spec fn is_device(name: Option<Seq<u8>>) -> bool {
    name matches Some(n) && is_reserved(capital_stem(n))
}

/// What is wrong with the entry name `raw` whatever other entries there are.
pub open spec fn own_fault(platform: Platform, raw: Seq<u8>) -> Option<NameFault> {
    if !vstd::utf8::valid_utf8(raw) {
        Some(NameFault::NotUtf8)
    } else if raw.len() == 0 {
        Some(NameFault::Empty)
    } else if platform.escapes(raw) {
        Some(NameFault::Escapes)
    } else if platform is Windows && is_device(platform.file_name(raw)) {
        Some(NameFault::DeviceName)
    } else {
        None
    }
}

/// What two entry names have in common if the later one is a duplicate.
pub open spec fn name_key(platform: Platform, raw: Seq<u8>) -> Seq<char> {
    let name = vstd::utf8::decode_utf8(raw);
    if platform.folds_case() {
        crate::text::lowercase(name)
    } else {
        name
    }
}

/// What is wrong with the entry name `raw` where the names with the keys `seen` are taken.
pub open spec fn fault(platform: Platform, raw: Seq<u8>, seen: Set<Seq<char>>) -> Option<
    NameFault,
> {
    if own_fault(platform, raw) is Some {
        own_fault(platform, raw)
    } else if seen.contains(name_key(platform, raw)) {
        Some(NameFault::Duplicate)
    } else {
        None
    }
}

/// Where the entry goes that is the `number`th, counted from 0, whose name is bad.
pub open spec fn bad_place(out: PathView, number: nat) -> PathView {
    out.join("badnames".spec_bytes()).join(
        vstd::utf8::encode_utf8(crate::text::decimal(number) + ".unk"@),
    )
}

/// The place of the `number`th bad name, as the names below the output folder that lead there.
pub open spec fn bad_key(number: nat) -> Seq<char> {
    "badnames/"@ + crate::text::decimal(number) + ".unk"@
}

/// `b`, with an ASCII capital made a small letter.
pub open spec fn small(b: u8) -> u8 {
    if 0x41 <= b <= 0x5a {
        (b + 0x20) as u8
    } else {
        b
    }
}

/// `names` one behind the other, with `/` between them.
pub open spec fn joined(names: Seq<Seq<u8>>) -> Seq<u8>
    decreases names.len(),
{
    if names.len() == 0 {
        Seq::empty()
    } else if names.len() == 1 {
        names[0]
    } else {
        joined(names.drop_last()).push(0x2f) + names.last()
    }
}

/// `s`, with ASCII capitals made small letters where names that differ only in case denote one
/// file.
pub open spec fn folded(platform: Platform, s: Seq<u8>) -> Seq<u8> {
    if platform.folds_case() {
        s.map_values(|b: u8| small(b))
    } else {
        s
    }
}

/// The place that the entry name `raw` stands for, however it is spelled: the names that lead
/// there, with `/` between them.
pub open spec fn place_key(platform: Platform, raw: Seq<u8>) -> Option<Seq<char>> {
    let place = folded(platform, joined(platform.names(raw)));
    if vstd::utf8::valid_utf8(place) {
        Some(vstd::utf8::decode_utf8(place))
    } else {
        None
    }
}

/// Whether Windows takes a file of this name for a device, whatever its extension.
pub fn is_windows_device_name(name: Option<&[u8]>) -> (yes: bool)
    ensures
        yes == is_device(
            match name {
                Some(n) => Some(n@),
                None => None,
            },
        ),
{
    let name = match name {
        Some(n) => n,
        None => return false,
    };
    let mut stem: Vec<u8> = Vec::new();
    let mut i: usize = 0;
    assert(stem@ =~= name@.take(0).map_values(|b: u8| capital(b)));
    while i < name.len() && name[i] != 0x2e
        invariant
            i <= name@.len(),
            stem@ == name@.take(i as int).map_values(|b: u8| capital(b)),
            dot_from(name@, i as int) == dot_from(name@, 0),
        decreases name@.len() - i,
    {
        let b = name[i];
        if 0x61 <= b && b <= 0x7a {
            stem.push(b - 0x20);
        } else {
            stem.push(b);
        }
        i = i + 1;
        assert(stem@ =~= name@.take(i as int).map_values(|b: u8| capital(b)));
    }
    assert(stem@ == capital_stem(name@));
    let s = stem.as_slice();
    if same_bytes(s, "CON".as_bytes()) || same_bytes(s, "PRN".as_bytes()) || same_bytes(
        s,
        "AUX".as_bytes(),
    ) || same_bytes(s, "NUL".as_bytes()) {
        return true;
    }
    if s.len() != 4 || s[3] < 0x31 || s[3] > 0x39 {
        return false;
    }
    let port = vstd::slice::slice_subrange(s, 0, 3);
    assert(port@ =~= stem@.take(3));
    same_bytes(port, "COM".as_bytes()) || same_bytes(port, "LPT".as_bytes())
}

/// The next place for an entry whose name is bad.
pub fn bad_path(out: &OsPath, bad_names: &mut u64) -> (path: OsPath)
    requires
        *old(bad_names) < u64::MAX,
    ensures
        path@ == bad_place(out@, *old(bad_names) as nat),
        *final(bad_names) == *old(bad_names) + 1,
{
    let number = decimal_text(*bad_names);
    let file = join2(number.as_str(), ".unk");
    let folder = out.join("badnames".as_bytes());
    let path = folder.join(file.as_str().as_bytes());
    *bad_names = *bad_names + 1;
    path
}

/// What is wrong with the entry name `raw`; a name that is good is taken from now on.
fn take_name(platform: Platform, raw: &[u8], seen: &mut StringHashSet) -> (found: Option<
    NameFault,
>)
    ensures
        found == fault(platform, raw@, old(seen)@),
        final(seen)@ == if found is None {
            old(seen)@.insert(name_key(platform, raw@))
        } else {
            old(seen)@
        },
{
    let name = match utf8_text(raw) {
        Some(name) => name,
        None => return Some(NameFault::NotUtf8),
    };
    if raw.len() == 0 {
        return Some(NameFault::Empty);
    }
    if platform.is_escaping(raw) {
        return Some(NameFault::Escapes);
    }
    if platform == Platform::Windows {
        let file = platform.file_name_of(raw);
        let device = match &file {
            Some(n) => is_windows_device_name(Some(n.as_slice())),
            None => is_windows_device_name(None),
        };
        if device {
            return Some(NameFault::DeviceName);
        }
    }
    let key = if platform.is_case_folding() {
        lowercase_text(name)
    } else {
        String::from_str(name)
    };
    if !seen.insert(key) {
        assert(seen@ =~= old(seen)@);
        return Some(NameFault::Duplicate);
    }
    None
}

/// Where the entry with the name `raw` goes: below `out`, by its name if that is good, and among
/// the bad names if it is not. Also what is wrong with the name.
pub fn entry_path(
    out: &OsPath,
    raw: &[u8],
    bad_names: &mut u64,
    seen: &mut StringHashSet,
) -> (place: (OsPath, Option<NameFault>))
    requires
        *old(bad_names) < u64::MAX,
    ensures
        place.1 == fault(out@.platform, raw@, old(seen)@),
        match place.1 {
            None => {
                &&& place.0@ == out@.join(raw@)
                &&& *final(bad_names) == *old(bad_names)
                &&& final(seen)@ == old(seen)@.insert(name_key(out@.platform, raw@))
            },
            Some(_) => {
                &&& place.0@ == bad_place(out@, *old(bad_names) as nat)
                &&& *final(bad_names) == *old(bad_names) + 1
                &&& final(seen)@ == old(seen)@
            },
        },
{
    let found = take_name(out.platform, raw, seen);
    match found {
        None => (out.join(raw), None),
        Some(_) => (bad_path(out, bad_names), found),
    }
}

/// The place that the entry name `raw` stands for, however it is spelled.
pub fn place_key_of(platform: Platform, raw: &[u8]) -> (key: Option<String>)
    ensures
        match key {
            Some(k) => place_key(platform, raw@) == Some(k@),
            None => place_key(platform, raw@) is None,
        },
{
    let names = platform.name_list(raw);
    let ghost all = crate::path::views(names@);
    let mut place: Vec<u8> = Vec::new();
    let mut i: usize = 0;
    assert(place@ =~= joined(all.take(0)));
    while i < names.len()
        invariant
            i <= names@.len(),
            all == crate::path::views(names@),
            place@ == joined(all.take(i as int)),
        decreases names@.len() - i,
    {
        assert(all.take(i + 1).drop_last() =~= all.take(i as int));
        assert(all.take(i + 1).last() == names@[i as int]@);
        if i > 0 {
            place.push(0x2f);
        }
        push_all(&mut place, names[i].as_slice());
        i = i + 1;
        assert(place@ =~= joined(all.take(i as int)));
    }
    assert(all.take(i as int) =~= all);
    let ghost given = place@;
    if platform.is_case_folding() {
        let mut j: usize = 0;
        while j < place.len()
            invariant
                j <= place@.len(),
                place@.len() == given.len(),
                forall|k: int| 0 <= k < j ==> place@[k] == small(given[k]),
                forall|k: int| j <= k < place@.len() ==> place@[k] == given[k],
            decreases place@.len() - j,
        {
            let b = place[j];
            if 0x41 <= b && b <= 0x5a {
                place.set(j, b + 0x20);
            }
            j = j + 1;
        }
    }
    assert(place@ =~= folded(platform, given));
    match utf8_text(place.as_slice()) {
        Some(text) => Some(String::from_str(text)),
        None => None,
    }
}

/// The place of the `number`th bad name, as the names below the output folder that lead there.
pub fn bad_key_of(number: u64) -> (key: String)
    ensures
        key@ == bad_key(number as nat),
{
    let digits = decimal_text(number);
    join3("badnames/", digits.as_str(), ".unk")
}

} // verus!
