//! What the bytes at the start of an archive come to, told by the bytes.

use vstd::prelude::*;

use crate::header::HeaderView;
use crate::index::RawEntry;
use crate::reader::Parsed;

verus! {

/// The bytes that every archive starts with: `GMAD`.
pub open spec fn magic() -> Seq<u8> {
    seq![0x47u8, 0x4d, 0x41, 0x44]
}

/// The magic bytes are the ones that are looked for.
proof fn lemma_magic()
    ensures
        crate::header::GMA_MAGIC@ == magic(),
{
    assert(crate::header::GMA_MAGIC@ =~= magic());
}

/// What starts with other bytes is no archive; one of a version above 3 is not supported; nothing
/// else is wrong with a header but that it is cut off, and where within the first 21 bytes that is
/// so is told.
pub proof fn law_header_faults(data: Seq<u8>)
    ensures
        ({
            let head = crate::header::header(data, 0);
            let is_gma = data.len() >= 4 && data.take(4) == magic();
            let is_new = is_gma && data.len() >= 5 && data[4] > 3;
            &&& data.len() < 4 ==> head == Parsed::<HeaderView>::Ended(
                "reading GMA magic"@,
            )
            &&& data.len() >= 4 && !is_gma ==> head == Parsed::<HeaderView>::Fault(
                "bad magic bytes, this is not a GMA file"@,
            )
            &&& is_gma && data.len() == 4 ==> head == Parsed::<HeaderView>::Ended(
                "reading GMA version"@,
            )
            &&& is_new ==> head == Parsed::<HeaderView>::Fault(
                "unsupported GMA version "@ + crate::text::decimal(data[4] as nat)
                    + ", this tool supports up to version 3"@,
            )
            &&& is_gma && 5 <= data.len() < 21 && !is_new ==> head == Parsed::<HeaderView>::Ended(
                "reading SteamID and timestamp"@,
            )
            &&& is_gma && data.len() >= 21 && !is_new ==> !(head is Fault)
        }),
{
    lemma_magic();
    if data.len() >= 4 {
        assert(data.subrange(0, 4) =~= data.take(4));
    }
    reveal_strlit(", this tool supports up to version ");
    reveal_strlit(", this tool supports up to version 3");
    assert(crate::text::decimal(3) =~= seq!['3']);
    assert(", this tool supports up to version "@ + crate::text::decimal(3)
        =~= ", this tool supports up to version 3"@);
    if data.len() >= 5 {
        assert("unsupported GMA version "@ + crate::text::decimal(data[4] as nat)
            + ", this tool supports up to version "@ + crate::text::decimal(3)
            =~= "unsupported GMA version "@ + crate::text::decimal(data[4] as nat) + (
        ", this tool supports up to version "@ + crate::text::decimal(3)));
    }
}

/// Strings one behind the other, each with its NUL.
pub open spec fn strings_bytes(strings: Seq<Seq<u8>>) -> Seq<u8>
    decreases strings.len(),
{
    if strings.len() == 0 {
        Seq::empty()
    } else {
        strings[0] + seq![0u8] + strings_bytes(strings.drop_first())
    }
}

/// Whether `s` holds no NUL.
pub open spec fn is_plain(s: Seq<u8>) -> bool {
    forall|i: int| 0 <= i < s.len() ==> #[trigger] s[i] != 0
}

/// A string with its NUL is found, whatever follows it.
proof fn lemma_finds_string(data: Seq<u8>, pos: int, text: Seq<u8>, more: Seq<u8>)
    requires
        0 <= pos <= data.len(),
        is_plain(text),
        data.skip(pos) == text + seq![0u8] + more,
    ensures
        crate::reader::nul_from(data, pos) == Some(pos + text.len()),
        data.subrange(pos, pos + text.len()) == text,
        data.skip(pos + text.len() + 1) == more,
        pos + text.len() + 1 + more.len() == data.len(),
{
    let rest = data.skip(pos);
    let nul = pos + text.len();
    crate::reader::lemma_nul_from(data, pos);
    assert(rest.len() == data.len() - pos);
    assert(rest.len() == text.len() + 1 + more.len());
    assert(rest[text.len() as int] == 0);
    assert(data[nul] == 0);
    assert forall|i: int| pos <= i < nul implies data[i] != 0 by {
        assert(data[i] == rest[i - pos]);
        assert(rest[i - pos] == text[i - pos]);
    }
    assert(data.subrange(pos, nul) =~= text);
    let behind = data.skip(nul + 1);
    assert forall|i: int| 0 <= i < more.len() implies behind[i] == more[i] by {
        assert(behind[i] == rest[text.len() + 1 + i]);
    }
    assert(behind =~= more);
}

/// A string without its NUL is not found.
proof fn lemma_finds_none(data: Seq<u8>, pos: int)
    requires
        0 <= pos <= data.len(),
        is_plain(data.skip(pos)),
    ensures
        crate::reader::nul_from(data, pos) is None,
{
    crate::reader::lemma_nul_from(data, pos);
    if let Some(nul) = crate::reader::nul_from(data, pos) {
        assert(data.skip(pos)[nul - pos] == data[nul]);
    }
}

/// A list of required content that does not end.
proof fn lemma_required_cut_off(data: Seq<u8>, pos: int, strings: Seq<Seq<u8>>, more: Seq<u8>)
    requires
        0 <= pos <= data.len(),
        forall|i: int|
            0 <= i < strings.len() ==> (#[trigger] strings[i]).len() > 0 && is_plain(strings[i]),
        is_plain(more),
        data.skip(pos) == strings_bytes(strings) + more,
    ensures
        crate::header::past_required(data, pos) is None,
    decreases strings.len(),
{
    if strings.len() == 0 {
        assert(data.skip(pos) =~= more);
        lemma_finds_none(data, pos);
    } else {
        let rest = strings.drop_first();
        assert(data.skip(pos) =~= strings[0] + seq![0u8] + (strings_bytes(rest) + more));
        lemma_finds_string(data, pos, strings[0], strings_bytes(rest) + more);
        assert forall|i: int| 0 <= i < rest.len() implies (#[trigger] rest[i]).len() > 0 && is_plain(
            rest[i],
        ) by {
            assert(rest[i] == strings[i + 1]);
        }
        lemma_required_cut_off(data, pos + strings[0].len() + 1, rest, more);
    }
}

/// A list of required content that ends.
proof fn lemma_required_found(data: Seq<u8>, pos: int, strings: Seq<Seq<u8>>, more: Seq<u8>)
    requires
        0 <= pos <= data.len(),
        forall|i: int|
            0 <= i < strings.len() ==> (#[trigger] strings[i]).len() > 0 && is_plain(strings[i]),
        data.skip(pos) == strings_bytes(strings) + seq![0u8] + more,
    ensures
        crate::header::past_required(data, pos) == Some(
            pos + strings_bytes(strings).len() + 1,
        ),
        data.skip(pos + strings_bytes(strings).len() + 1) == more,
    decreases strings.len(),
{
    if strings.len() == 0 {
        assert(data.skip(pos) =~= Seq::<u8>::empty() + seq![0u8] + more);
        lemma_finds_string(data, pos, Seq::empty(), more);
    } else {
        let rest = strings.drop_first();
        let tail = strings_bytes(rest) + seq![0u8] + more;
        assert(data.skip(pos) =~= strings[0] + seq![0u8] + tail);
        lemma_finds_string(data, pos, strings[0], tail);
        assert forall|i: int| 0 <= i < rest.len() implies (#[trigger] rest[i]).len() > 0 && is_plain(
            rest[i],
        ) by {
            assert(rest[i] == strings[i + 1]);
        }
        lemma_required_found(data, pos + strings[0].len() + 1, rest, more);
    }
}

/// Whether `data` is a header up to where the addon's own strings start, and `tail` behind that: the
/// magic bytes, a version up to 3, 16 bytes more, and from version 2 on strings that are not empty
/// and an empty one.
#[verifier::opaque]
pub open spec fn is_header_with(
    data: Seq<u8>,
    version: u8,
    stamp: Seq<u8>,
    required: Seq<Seq<u8>>,
    tail: Seq<u8>,
) -> bool {
    &&& version <= 3
    &&& stamp.len() == 16
    &&& forall|i: int|
        0 <= i < required.len() ==> (#[trigger] required[i]).len() > 0 && is_plain(required[i])
    &&& data == magic() + seq![version] + stamp + (if version >= 2 {
        strings_bytes(required) + seq![0u8]
    } else {
        Seq::empty()
    }) + tail
}

/// The strings of the addon are looked for where they start.
proof fn lemma_header_with(
    data: Seq<u8>,
    version: u8,
    stamp: Seq<u8>,
    required: Seq<Seq<u8>>,
    tail: Seq<u8>,
) -> (pos: int)
    requires
        is_header_with(data, version, stamp, required, tail),
    ensures
        0 <= pos <= data.len(),
        data.skip(pos) == tail,
        pos == data.len() - tail.len(),
        crate::header::header(data, 0) == crate::header::addon(data, pos),
{
    reveal(is_header_with);
    lemma_magic();
    assert(data.subrange(0, 4) =~= magic());
    assert(data[4] == version);
    if version >= 2 {
        assert(data.skip(21) =~= strings_bytes(required) + seq![0u8] + tail);
        lemma_required_found(data, 21, required, tail);
        21int + strings_bytes(required).len() + 1
    } else {
        assert(data.skip(21) =~= tail);
        21
    }
}

/// A header that ends within the list of required content.
pub proof fn law_required_cut_off(
    data: Seq<u8>,
    version: u8,
    stamp: Seq<u8>,
    strings: Seq<Seq<u8>>,
    more: Seq<u8>,
)
    requires
        2 <= version <= 3,
        stamp.len() == 16,
        forall|i: int|
            0 <= i < strings.len() ==> (#[trigger] strings[i]).len() > 0 && is_plain(strings[i]),
        is_plain(more),
        data == magic() + seq![version] + stamp + strings_bytes(strings) + more,
    ensures
        crate::header::header(data, 0) == Parsed::<HeaderView>::Ended(
            "reading required content"@,
        ),
{
    lemma_magic();
    assert(data.subrange(0, 4) =~= magic());
    assert(data[4] == version);
    assert(data.skip(21) =~= strings_bytes(strings) + more);
    lemma_required_cut_off(data, 21, strings, more);
}

/// The addon's strings are read where they start.
proof fn lemma_addon_read(
    data: Seq<u8>,
    pos: int,
    title: Seq<u8>,
    description: Seq<u8>,
    author: Seq<u8>,
    rest: Seq<u8>,
)
    requires
        0 <= pos <= data.len(),
        is_plain(title),
        is_plain(description),
        is_plain(author),
        rest.len() >= 4,
        data.skip(pos) == title + seq![0u8] + (description + seq![0u8] + (author + seq![0u8] + rest)),
    ensures
        crate::header::addon(data, pos) == Parsed::Done(
            HeaderView { title, addon_json: description },
            data.len() - rest.len() + 4,
        ),
{
    let third = author + seq![0u8] + rest;
    let second = description + seq![0u8] + third;
    lemma_finds_string(data, pos, title, second);
    let second_pos = pos + title.len() + 1;
    lemma_finds_string(data, second_pos, description, third);
    let third_pos = second_pos + description.len() + 1;
    lemma_finds_string(data, third_pos, author, rest);
    assert(data.skip(third_pos + author.len() + 1).len() == rest.len());
}

/// A header tells the first two of the addon's strings, the title and the description, and ends four
/// bytes behind the third.
pub proof fn law_header_is_read(
    data: Seq<u8>,
    version: u8,
    stamp: Seq<u8>,
    required: Seq<Seq<u8>>,
    title: Seq<u8>,
    description: Seq<u8>,
    author: Seq<u8>,
    addon_version: Seq<u8>,
    more: Seq<u8>,
)
    requires
        is_plain(title),
        is_plain(description),
        is_plain(author),
        addon_version.len() == 4,
        is_header_with(
            data,
            version,
            stamp,
            required,
            title + seq![0u8] + (description + seq![0u8] + (author + seq![0u8] + (addon_version
                + more))),
        ),
    ensures
        crate::header::header(data, 0) == Parsed::Done(
            HeaderView { title, addon_json: description },
            data.len() - more.len(),
        ),
{
    let rest = addon_version + more;
    let tail = title + seq![0u8] + (description + seq![0u8] + (author + seq![0u8] + rest));
    let pos = lemma_header_with(data, version, stamp, required, tail);
    lemma_addon_read(data, pos, title, description, author, rest);
}

/// A header that ends within the addon's strings, or within the four bytes behind them: where it
/// does is told.
pub proof fn law_addon_cut_off(
    data: Seq<u8>,
    version: u8,
    stamp: Seq<u8>,
    required: Seq<Seq<u8>>,
    title: Seq<u8>,
    description: Seq<u8>,
    author: Seq<u8>,
    more: Seq<u8>,
)
    requires
        is_plain(title),
        is_plain(description),
        is_plain(author),
        is_plain(more) || more.len() < 4,
    ensures
        is_plain(more) && is_header_with(data, version, stamp, required, more)
            ==> crate::header::header(data, 0) == Parsed::<HeaderView>::Ended(
            "reading addon name"@,
        ),
        is_plain(more) && is_header_with(
            data,
            version,
            stamp,
            required,
            title + seq![0u8] + more,
        ) ==> crate::header::header(data, 0) == Parsed::<HeaderView>::Ended(
            "reading addon description"@,
        ),
        is_plain(more) && is_header_with(
            data,
            version,
            stamp,
            required,
            title + seq![0u8] + (description + seq![0u8] + more),
        ) ==> crate::header::header(data, 0) == Parsed::<HeaderView>::Ended(
            "reading addon author"@,
        ),
        more.len() < 4 && is_header_with(
            data,
            version,
            stamp,
            required,
            title + seq![0u8] + (description + seq![0u8] + (author + seq![0u8] + more)),
        ) ==> crate::header::header(data, 0) == Parsed::<HeaderView>::Ended(
            "reading addon version"@,
        ),
{
    let one = title + seq![0u8] + more;
    let two = title + seq![0u8] + (description + seq![0u8] + more);
    let three = title + seq![0u8] + (description + seq![0u8] + (author + seq![0u8] + more));
    if is_plain(more) && is_header_with(data, version, stamp, required, more) {
        let pos = lemma_header_with(data, version, stamp, required, more);
        lemma_finds_none(data, pos);
    }
    if is_plain(more) && is_header_with(data, version, stamp, required, one) {
        let pos = lemma_header_with(data, version, stamp, required, one);
        lemma_finds_string(data, pos, title, more);
        lemma_finds_none(data, pos + title.len() + 1);
    }
    if is_plain(more) && is_header_with(data, version, stamp, required, two) {
        let pos = lemma_header_with(data, version, stamp, required, two);
        lemma_finds_string(data, pos, title, description + seq![0u8] + more);
        lemma_finds_string(data, pos + title.len() + 1, description, more);
        lemma_finds_none(data, pos + title.len() + 1 + description.len() + 1);
    }
    if more.len() < 4 && is_header_with(data, version, stamp, required, three) {
        let pos = lemma_header_with(data, version, stamp, required, three);
        lemma_finds_string(
            data,
            pos,
            title,
            description + seq![0u8] + (author + seq![0u8] + more),
        );
        lemma_finds_string(data, pos + title.len() + 1, description, author + seq![0u8] + more);
        lemma_finds_string(
            data,
            pos + title.len() + 1 + description.len() + 1,
            author,
            more,
        );
    }
}

/// An index is cut off or lists too much, and which of these is told; nothing else is wrong with one. What
/// it lists is together a 64-bit number of bytes.
pub proof fn law_index_faults(data: Seq<u8>, pos: int, offset: nat)
    requires
        offset <= u64::MAX,
    ensures
        match crate::index::index_from(data, pos, offset) {
            Parsed::Ended(context) => context == "reading file index"@,
            Parsed::Fault(message) => message == "file index is too large"@,
            Parsed::Done(raw, next) => {
                &&& offset + crate::index::total(raw) <= u64::MAX
                &&& pos + 4 <= next <= data.len()
            },
        },
    decreases data.len() - pos,
{
    if 0 <= pos && pos + 4 <= data.len() && crate::reader::le_value(data.subrange(pos, pos + 4)) != 0 {
        crate::reader::lemma_nul_from(data, pos + 4);
        if let Some(nul) = crate::reader::nul_from(data, pos + 4) {
            let size = crate::reader::le_value(data.subrange(nul + 1, nul + 9));
            if nul + 13 <= data.len() && offset + size <= u64::MAX {
                law_index_faults(data, nul + 13, offset + size);
                let rest = crate::index::index_from(data, nul + 13, offset + size);
                if let Parsed::Done(more, next) = rest {
                    let first = RawEntry { name: data.subrange(pos + 4, nul), size };
                    let raw = seq![first] + more;
                    crate::archive_laws::lemma_total_from_front(raw);
                    assert(raw.drop_first() =~= more);
                }
            }
        }
    }
}

} // verus!
