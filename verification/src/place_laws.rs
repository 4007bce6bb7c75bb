//! What holds of the places that entries are given.

use vstd::prelude::*;
use vstd::string::*;

use crate::index::RawEntry;
use crate::names::NameFault;
use crate::path::{PathView, Platform};

verus! {

/// Whether `path` lies below the folder `out`: it starts as `out` does, none of the parts that
/// follow leads out of the folder it is joined to, and it walks through no `..` behind `out`.
pub open spec fn lies_below(path: PathView, out: PathView) -> bool {
    &&& path.platform == out.platform
    &&& path.root == out.root
    &&& out.parts.is_prefix_of(path.parts)
    &&& forall|i: int|
        out.parts.len() <= i < path.parts.len() ==> !path.platform.escapes(
            #[trigger] path.parts[i],
        )
    &&& out.names().is_prefix_of(path.names())
    &&& !path.names().skip(out.names().len() as int).contains(crate::path::parent_dir())
}

/// The proper names among pieces are pieces.
proof fn lemma_proper_names(pieces: Seq<Seq<u8>>, name: Seq<u8>)
    requires
        crate::path::proper_names(pieces).contains(name),
    ensures
        pieces.contains(name),
    decreases pieces.len(),
{
    if pieces.len() > 0 {
        let before = crate::path::proper_names(pieces.drop_last());
        if before.contains(name) {
            lemma_proper_names(pieces.drop_last(), name);
            let i = pieces.drop_last().index_of(name);
            assert(pieces[i] == name);
        } else {
            let names = crate::path::proper_names(pieces);
            let i = names.index_of(name);
            assert(i == before.len());
            assert(pieces[pieces.len() - 1] == name);
        }
    }
}

/// A path that holds no separator is one piece.
pub proof fn lemma_one_piece(platform: Platform, s: Seq<u8>)
    requires
        forall|i: int| 0 <= i < s.len() ==> !platform.separates(#[trigger] s[i]),
    ensures
        platform.pieces(s) == seq![s],
    decreases s.len(),
{
    if s.len() == 0 {
        assert(s =~= Seq::<u8>::empty());
    } else {
        let t = s.drop_last();
        assert forall|i: int| 0 <= i < t.len() implies !platform.separates(#[trigger] t[i]) by {
            assert(t[i] == s[i]);
        }
        lemma_one_piece(platform, t);
        assert(platform.pieces(t).last() == t);
        assert(t.push(s.last()) =~= s);
        assert(platform.pieces(s) =~= seq![s]);
    }
}

/// Joining a part adds its names.
pub proof fn lemma_join_names(out: PathView, part: Seq<u8>)
    ensures
        out.join(part).names() == out.names() + out.platform.names(part),
{
    assert(out.join(part).parts.drop_last() =~= out.parts);
}

/// What is joined to a path that lies below `out` lies below it too, unless it escapes.
proof fn lemma_join_lies_below(path: PathView, out: PathView, part: Seq<u8>)
    requires
        lies_below(path, out),
        !out.platform.escapes(part),
    ensures
        lies_below(path.join(part), out),
{
    lemma_join_names(path, part);
    let joined = path.join(part);
    let n = out.names().len() as int;
    let before = path.names().skip(n);
    let added = out.platform.names(part);
    assert(joined.names().skip(n) =~= before + added);
    if joined.names().skip(n).contains(crate::path::parent_dir()) {
        let i = (before + added).index_of(crate::path::parent_dir());
        if i < before.len() {
            assert(before[i] == crate::path::parent_dir());
        } else {
            assert(added[i - before.len()] == crate::path::parent_dir());
            lemma_proper_names(out.platform.pieces(part), crate::path::parent_dir());
        }
    }
    assert forall|i: int| out.parts.len() <= i < joined.parts.len() implies !joined.platform.escapes(
        #[trigger] joined.parts[i],
    ) by {
        if i < path.parts.len() {
            assert(joined.parts[i] == path.parts[i]);
        }
    }
}

/// A folder lies below itself.
proof fn lemma_lies_below_itself(out: PathView)
    ensures
        lies_below(out, out),
{
    assert(out.names().skip(out.names().len() as int) =~= Seq::empty());
}

/// The name of a file among the bad names leads nowhere but into the folder it is joined to.
proof fn lemma_bad_name_stays(platform: Platform, number: nat)
    ensures
        !platform.escapes(
            vstd::utf8::encode_utf8(crate::text::decimal(number) + ".unk"@),
        ),
{
    reveal_strlit(".unk");
    crate::text::lemma_decimal_digits(number);
    let text = crate::text::decimal(number) + ".unk"@;
    let bytes = vstd::utf8::encode_utf8(text);
    assert forall|i: int| 0 <= i < text.len() implies '\0' <= #[trigger] text[i] <= '\u{7f}' by {
        if i < crate::text::decimal(number).len() {
            assert(text[i] == crate::text::decimal(number)[i]);
        }
    }
    assert(vstd::utf8::is_ascii_chars(text));
    vstd::utf8::is_ascii_chars_encode_utf8(text);
    assert forall|i: int| 0 <= i < bytes.len() implies !platform.separates(#[trigger] bytes[i])
        && bytes[i] != 0x3a by {
        assert(text[i] as u8 == bytes[i]);
        if i < crate::text::decimal(number).len() {
            assert(text[i] == crate::text::decimal(number)[i]);
        } else {
            assert(text[i] == ".unk"@[i - crate::text::decimal(number).len()]);
        }
    }
    lemma_one_piece(platform, bytes);
    assert(bytes.len() >= 5);
    assert(crate::path::parent_dir().len() == 2);
    if platform.pieces(bytes).contains(crate::path::parent_dir()) {
        let i = platform.pieces(bytes).index_of(crate::path::parent_dir());
        assert(i == 0);
    }
}

/// The folder of the bad names leads nowhere but into the folder it is joined to.
proof fn lemma_badnames_stays(platform: Platform)
    ensures
        !platform.escapes("badnames".spec_bytes()),
{
    reveal_strlit("badnames");
    assert(is_ascii("badnames"));
    let bytes = "badnames".spec_bytes();
    assert(bytes.len() == 8);
    assert forall|i: int| 0 <= i < bytes.len() implies !platform.separates(#[trigger] bytes[i])
        && bytes[i] != 0x3a by {
        assert(bytes[i] == "badnames"@[i] as u8);
    }
    lemma_one_piece(platform, bytes);
    if platform.pieces(bytes).contains(crate::path::parent_dir()) {
        let i = platform.pieces(bytes).index_of(crate::path::parent_dir());
        assert(i == 0);
        assert(crate::path::parent_dir().len() == 2);
    }
}

/// Every place for a bad name lies below the output folder.
pub proof fn law_bad_places_lie_below(out: PathView, number: nat)
    ensures
        lies_below(crate::names::bad_place(out, number), out),
{
    lemma_lies_below_itself(out);
    lemma_badnames_stays(out.platform);
    lemma_join_lies_below(out, out, "badnames".spec_bytes());
    lemma_bad_name_stays(out.platform, number);
    lemma_join_lies_below(
        out.join("badnames".spec_bytes()),
        out,
        vstd::utf8::encode_utf8(crate::text::decimal(number) + ".unk"@),
    );
}

/// What the index lists at `i` is placed as if it were the last.
pub proof fn lemma_placed_at(out: PathView, raw: Seq<RawEntry>, i: int)
    requires
        0 <= i < raw.len(),
    ensures
        crate::index::placed(out, raw).len() == raw.len(),
        crate::index::placed(out, raw)[i] == crate::index::placed_after(out, raw.take(i), raw[i]),
    decreases raw.len(),
{
    crate::index::lemma_placed_total(out, raw);
    crate::index::lemma_placed_total(out, raw.drop_last());
    if i < raw.len() - 1 {
        lemma_placed_at(out, raw.drop_last(), i);
        assert(raw.drop_last().take(i) =~= raw.take(i));
    } else {
        assert(raw.take(i) =~= raw.drop_last());
    }
}

/// No entry goes anywhere but below the output folder, whatever its name.
pub proof fn law_entries_lie_below(out: PathView, raw: Seq<RawEntry>, i: int)
    requires
        0 <= i < raw.len(),
    ensures
        lies_below(crate::index::placed(out, raw)[i].path, out),
{
    lemma_placed_at(out, raw, i);
    let entry = crate::index::placed(out, raw)[i];
    if entry.fault is None {
        lemma_lies_below_itself(out);
        lemma_join_lies_below(out, out, raw[i].name);
    } else {
        law_bad_places_lie_below(
            out,
            crate::index::places(out.platform, raw.take(i)).number(),
        );
    }
}

/// The contents of the entries lie one right behind the other, the first at the start.
pub proof fn law_offsets_are_contiguous(out: PathView, raw: Seq<RawEntry>)
    ensures
        raw.len() > 0 ==> crate::index::placed(out, raw)[0].offset == 0,
        forall|i: int, j: int|
            0 <= i && j == i + 1 && j < raw.len() ==> (#[trigger] crate::index::placed(
                out,
                raw,
            )[j]).offset == (#[trigger] crate::index::placed(out, raw)[i]).offset
                + crate::index::placed(out, raw)[i].size,
        raw.len() > 0 ==> crate::index::placed(out, raw).last().offset + crate::index::placed(
            out,
            raw,
        ).last().size == crate::index::total(raw),
{
    crate::index::lemma_placed_total(out, raw);
    if raw.len() > 0 {
        lemma_placed_at(out, raw, 0);
        assert(raw.take(0) =~= Seq::empty());
        lemma_placed_at(out, raw, raw.len() - 1);
        assert(raw.take(raw.len() - 1) =~= raw.drop_last());
    }
    assert forall|i: int, j: int| 0 <= i && j == i + 1 && j < raw.len() implies (
    #[trigger] crate::index::placed(out, raw)[j]).offset == (#[trigger] crate::index::placed(
        out,
        raw,
    )[i]).offset + crate::index::placed(out, raw)[i].size by {
        lemma_placed_at(out, raw, i);
        lemma_placed_at(out, raw, j);
        assert(raw.take(j).drop_last() =~= raw.take(i));
    }
}

/// A name that is not faulted is UTF-8 text, is not empty, leads nowhere but into the folder that
/// it is joined to, and is on Windows not the name of a device.
pub proof fn law_good_names_are_safe(platform: Platform, raw: Seq<u8>, seen: Set<Seq<char>>)
    requires
        crate::names::fault(platform, raw, seen) is None,
    ensures
        vstd::utf8::valid_utf8(raw),
        raw.len() > 0,
        !platform.escapes(raw),
        platform is Windows ==> !crate::names::is_device(platform.file_name(raw)),
        !seen.contains(crate::names::name_key(platform, raw)),
{
}

/// Whether the name of an entry with this fault is its own, though it may not go by it.
pub open spec fn is_accepted(fault: Option<NameFault>) -> bool {
    fault is None || fault == Some(NameFault::Occupied)
}

/// The keys that are taken are those of the entries with good names.
pub proof fn lemma_taken(platform: Platform, raw: Seq<RawEntry>, key: Seq<char>)
    ensures
        crate::index::taken(platform, raw).contains(key) <==> exists|j: int|
            0 <= j < raw.len() && is_accepted(#[trigger] crate::index::fault_after(
                platform,
                raw.take(j),
                raw[j],
            )) && crate::names::name_key(platform, raw[j].name) == key,
    decreases raw.len(),
{
    if raw.len() > 0 {
        lemma_own_fault(platform, raw.last().name);
        let front = raw.drop_last();
        let n = raw.len() - 1;
        lemma_taken(platform, front, key);
        assert(raw.take(n) =~= front);
        assert forall|j: int| 0 <= j < n implies front.take(j) == #[trigger] raw.take(j) && front[j]
            == raw[j] by {
            assert(front.take(j) =~= raw.take(j));
        }
        if crate::index::taken(platform, raw).contains(key) {
            if crate::index::taken(platform, front).contains(key) {
                let j = choose|j: int|
                    0 <= j < front.len() && is_accepted(#[trigger] crate::index::fault_after(
                        platform,
                        front.take(j),
                        front[j],
                    )) && crate::names::name_key(platform, front[j].name) == key;
                assert(raw.take(j) =~= front.take(j));
                assert(is_accepted(crate::index::fault_after(platform, raw.take(j), raw[j])));
            } else {
                assert(is_accepted(crate::index::fault_after(platform, raw.take(n), raw[n])));
            }
        }
        if exists|j: int|
            0 <= j < raw.len() && is_accepted(#[trigger] crate::index::fault_after(
                platform,
                raw.take(j),
                raw[j],
            )) && crate::names::name_key(platform, raw[j].name) == key {
            let j = choose|j: int|
                0 <= j < raw.len() && is_accepted(#[trigger] crate::index::fault_after(
                    platform,
                    raw.take(j),
                    raw[j],
                )) && crate::names::name_key(platform, raw[j].name) == key;
            if j < n {
                assert(raw.take(j) =~= front.take(j));
                assert(is_accepted(crate::index::fault_after(platform, front.take(j), front[j])));
            }
        }
    }
}

/// An entry is a duplicate just if there is nothing else wrong with its name, and an entry before
/// it has a name of its own that counts as the same.
pub proof fn law_duplicates(out: PathView, raw: Seq<RawEntry>, i: int)
    requires
        0 <= i < raw.len(),
    ensures
        crate::index::placed(out, raw)[i].fault == Some(NameFault::Duplicate) <==> {
            &&& crate::names::own_fault(out.platform, raw[i].name) is None
            &&& exists|j: int|
                0 <= j < i && is_accepted((#[trigger] crate::index::placed(out, raw)[j]).fault)
                    && crate::names::name_key(out.platform, raw[j].name) == crate::names::name_key(
                    out.platform,
                    raw[i].name,
                )
        },
{
    let platform = out.platform;
    let all = crate::index::placed(out, raw);
    let key = crate::names::name_key(platform, raw[i].name);
    lemma_placed_at(out, raw, i);
    lemma_taken(platform, raw.take(i), key);
    assert forall|j: int| 0 <= j < i implies (#[trigger] all[j]).fault
        == crate::index::fault_after(platform, raw.take(i).take(j), raw.take(i)[j]) by {
        lemma_placed_at(out, raw, j);
        assert(raw.take(i).take(j) =~= raw.take(j));
    }
    if crate::index::taken(platform, raw.take(i)).contains(key) {
        let j = choose|j: int|
            0 <= j < raw.take(i).len() && is_accepted(#[trigger] crate::index::fault_after(
                platform,
                raw.take(i).take(j),
                raw.take(i)[j],
            )) && crate::names::name_key(platform, raw.take(i)[j].name) == key;
        assert(is_accepted(all[j].fault));
    }
    if exists|j: int|
        0 <= j < i && is_accepted((#[trigger] all[j]).fault) && crate::names::name_key(
            platform,
            raw[j].name,
        ) == key {
        let j = choose|j: int|
            0 <= j < i && is_accepted((#[trigger] all[j]).fault) && crate::names::name_key(
                platform,
                raw[j].name,
            ) == key;
        assert(is_accepted(crate::index::fault_after(platform, raw.take(i).take(j), raw.take(i)[j])));
    }
    lemma_own_fault(platform, raw[i].name);
}

/// A name is not a duplicate, nor is its place occupied, by itself.
pub proof fn lemma_own_fault(platform: Platform, raw: Seq<u8>)
    ensures
        crate::names::own_fault(platform, raw) != Some(NameFault::Duplicate),
        crate::names::own_fault(platform, raw) != Some(NameFault::Occupied),
{
}

/// No two entries whose names are good count as the same.
pub proof fn law_good_names_differ(out: PathView, raw: Seq<RawEntry>, i: int, j: int)
    requires
        0 <= i < j < raw.len(),
        crate::index::placed(out, raw)[i].fault is None,
        crate::index::placed(out, raw)[j].fault is None,
    ensures
        crate::names::name_key(out.platform, raw[i].name) != crate::names::name_key(
            out.platform,
            raw[j].name,
        ),
{
    lemma_placed_at(out, raw, i);
    lemma_placed_at(out, raw, j);
    if crate::names::name_key(out.platform, raw[i].name) == crate::names::name_key(
        out.platform,
        raw[j].name,
    ) {
        law_duplicates(out, raw, j);
        assert(is_accepted(crate::index::placed(out, raw)[i].fault));
    }
}

/// The pieces of two paths with a separator between them are those of the one, then those of the
/// other.
pub proof fn lemma_pieces_append(platform: Platform, a: Seq<u8>, sep: u8, b: Seq<u8>)
    requires
        platform.separates(sep),
    ensures
        platform.pieces(a.push(sep) + b) == platform.pieces(a) + platform.pieces(b),
    decreases b.len(),
{
    let whole = a.push(sep) + b;
    if b.len() == 0 {
        assert(whole =~= a.push(sep));
        assert(a.push(sep).drop_last() =~= a);
        assert(platform.pieces(whole) =~= platform.pieces(a) + platform.pieces(b));
    } else {
        lemma_pieces_append(platform, a, sep, b.drop_last());
        assert(whole.drop_last() =~= a.push(sep) + b.drop_last());
        let before = platform.pieces(b.drop_last());
        lemma_some_piece(platform, b.drop_last());
        let all = platform.pieces(a) + before;
        assert(all.drop_last() =~= platform.pieces(a) + before.drop_last());
        assert(platform.pieces(whole) =~= platform.pieces(a) + platform.pieces(b));
    }
}

/// There is always a piece.
pub proof fn lemma_some_piece(platform: Platform, s: Seq<u8>)
    ensures
        platform.pieces(s).len() > 0,
    decreases s.len(),
{
    if s.len() > 0 {
        lemma_some_piece(platform, s.drop_last());
    }
}

/// The name of the file of the `number`th bad name.
pub open spec fn bad_file(number: nat) -> Seq<u8> {
    vstd::utf8::encode_utf8(crate::text::decimal(number) + ".unk"@)
}

/// The place of the `number`th bad name as it is spelled below the output folder.
pub open spec fn bad_spelling(platform: Platform, number: nat) -> Seq<u8> {
    "badnames".spec_bytes().push(platform.main_separator()) + bad_file(number)
}

/// The bytes of a bad name's file: digits, a dot and small letters.
pub proof fn lemma_bad_file(number: nat)
    ensures
        bad_file(number).len() == crate::text::decimal(number).len() + 4,
        forall|i: int|
            0 <= i < bad_file(number).len() ==> 0x2e <= #[trigger] bad_file(number)[i] <= 0x7a
                && bad_file(number)[i] != 0x2f && bad_file(number)[i] != 0x3a
                && !(0x41 <= bad_file(number)[i] <= 0x5c),
        vstd::utf8::is_ascii_chars(crate::text::decimal(number) + ".unk"@),
{
    reveal_strlit(".unk");
    crate::text::lemma_decimal_digits(number);
    let digits = crate::text::decimal(number);
    let text = digits + ".unk"@;
    assert forall|i: int| 0 <= i < text.len() implies '\0' <= #[trigger] text[i] <= '\u{7f}' by {
        if i < digits.len() {
            assert(text[i] == digits[i]);
        }
    }
    vstd::utf8::is_ascii_chars_encode_utf8(text);
    assert forall|i: int| 0 <= i < bad_file(number).len() implies 0x2e <= #[trigger] bad_file(
        number,
    )[i] <= 0x7a && bad_file(number)[i] != 0x2f && bad_file(number)[i] != 0x3a && !(0x41
        <= bad_file(number)[i] <= 0x5c) by {
        assert(text[i] as u8 == bad_file(number)[i]);
        if i < digits.len() {
            assert(text[i] == digits[i]);
        } else {
            assert(text[i] == ".unk"@[i - digits.len()]);
        }
    }
}

/// The bytes of the folder of the bad names: small letters.
proof fn lemma_badnames_bytes()
    ensures
        "badnames".spec_bytes().len() == 8,
        forall|i: int|
            0 <= i < 8 ==> 0x61 <= #[trigger] "badnames".spec_bytes()[i] <= 0x7a,
{
    reveal_strlit("badnames");
    assert(is_ascii("badnames"));
    assert forall|i: int| 0 <= i < 8 implies 0x61 <= #[trigger] "badnames".spec_bytes()[i]
        <= 0x7a by {
        assert("badnames".spec_bytes()[i] == "badnames"@[i] as u8);
    }
}

/// A name that spells the place of a bad name stands for that place.
proof fn lemma_bad_spelling_key(platform: Platform, number: nat)
    ensures
        crate::names::place_key(platform, bad_spelling(platform, number)) == Some(
            crate::names::bad_key(number),
        ),
        platform.names(bad_spelling(platform, number)) == seq![
            "badnames".spec_bytes(),
            bad_file(number),
        ],
{
    let folder = "badnames".spec_bytes();
    let file = bad_file(number);
    lemma_badnames_bytes();
    lemma_bad_file(number);
    crate::text::lemma_decimal_digits(number);
    let sep = platform.main_separator();
    lemma_one_piece(platform, folder);
    lemma_one_piece(platform, file);
    lemma_pieces_append(platform, folder, sep, file);
    let pieces = platform.pieces(bad_spelling(platform, number));
    assert(pieces =~= seq![folder, file]);
    assert(crate::path::current_dir().len() == 1);
    reveal_with_fuel(crate::path::proper_names, 3);
    assert(pieces.drop_last() =~= seq![folder]);
    assert(pieces.drop_last().drop_last() =~= Seq::empty());
    let names = platform.names(bad_spelling(platform, number));
    assert(names =~= seq![folder, file]);
    reveal_with_fuel(crate::names::joined, 3);
    assert(names.drop_last() =~= seq![folder]);
    let place = crate::names::joined(names);
    assert(place =~= folder.push(0x2f) + file);
    assert(crate::names::folded(platform, place) =~= place);
    reveal_strlit("badnames/");
    reveal_strlit("badnames");
    let text = crate::names::bad_key(number);
    let name = crate::text::decimal(number) + ".unk"@;
    assert(text =~= "badnames/"@ + name);
    assert forall|i: int| 0 <= i < text.len() implies '\0' <= #[trigger] text[i] <= '\u{7f}' by {
        if i >= 9 {
            assert(text[i] == name[i - 9]);
        }
    }
    vstd::utf8::is_ascii_chars_encode_utf8(text);
    vstd::utf8::is_ascii_chars_encode_utf8(name);
    assert(is_ascii("badnames"));
    assert forall|i: int| 0 <= i < text.len() implies place[i] == #[trigger] vstd::utf8::encode_utf8(
        text,
    )[i] by {
        assert(text[i] as u8 == vstd::utf8::encode_utf8(text)[i]);
        if i >= 9 {
            assert(place[i] == file[i - 9]);
            assert(name[i - 9] as u8 == file[i - 9]);
        } else if i < 8 {
            assert(place[i] == folder[i]);
            assert(folder[i] == "badnames"@[i] as u8);
        }
    }
    assert(place =~= vstd::utf8::encode_utf8(text));
    vstd::utf8::encode_utf8_valid_utf8(text);
    vstd::utf8::encode_utf8_decode_utf8(text);
}

/// What comes before a part that is joined to `out`.
pub open spec fn front(out: PathView) -> Seq<u8> {
    out.platform.join_bytes(out.bytes(), Seq::empty())
}

/// The path of a part that is joined to a folder is spelled as the part, behind what is the same
/// for every part.
pub proof fn lemma_join_spelling(out: PathView, part: Seq<u8>)
    requires
        !out.platform.is_verbatim(out.bytes()),
    ensures
        out.join(part).bytes() == front(out) + part,
{
    assert(out.join(part).parts.drop_last() =~= out.parts);
    assert(out.join(part).bytes() =~= front(out) + part);
}

/// A name without separators is the only one that it walks through.
proof fn lemma_one_name(platform: Platform, s: Seq<u8>)
    requires
        forall|i: int| 0 <= i < s.len() ==> !platform.separates(#[trigger] s[i]),
        s.len() > 2,
    ensures
        platform.names(s) == seq![s],
        s != crate::path::parent_dir(),
{
    lemma_one_piece(platform, s);
    assert(crate::path::current_dir().len() == 1);
    assert(crate::path::parent_dir().len() == 2);
    reveal_with_fuel(crate::path::proper_names, 2);
    assert(seq![s].drop_last() =~= Seq::empty());
    assert(platform.names(s) =~= seq![s]);
}

/// The folder and the file of a bad name are one name each.
proof fn lemma_bad_names_alone(platform: Platform, number: nat)
    ensures
        platform.names("badnames".spec_bytes()) == seq!["badnames".spec_bytes()],
        platform.names(bad_file(number)) == seq![bad_file(number)],
        "badnames".spec_bytes() != crate::path::parent_dir(),
        bad_file(number) != crate::path::parent_dir(),
        "badnames".spec_bytes().len() == 8,
        bad_file(number).len() > 4,
{
    lemma_badnames_bytes();
    lemma_bad_file(number);
    crate::text::lemma_decimal_digits(number);
    lemma_one_name(platform, "badnames".spec_bytes());
    lemma_one_name(platform, bad_file(number));
}

/// How the place of a bad name is spelled.
pub proof fn lemma_bad_place_spelling(out: PathView, number: nat)
    requires
        !out.platform.is_verbatim(out.bytes()),
    ensures
        crate::names::bad_place(out, number).bytes() == front(out) + bad_spelling(
            out.platform,
            number,
        ),
{
    let folder = "badnames".spec_bytes();
    let file = bad_file(number);
    let inner = out.join(folder);
    let t = inner.bytes();
    lemma_badnames_bytes();
    lemma_bad_names_alone(out.platform, number);
    lemma_join_spelling(out, folder);
    assert(t.last() == folder[7]);
    assert(inner.join(file).parts.drop_last() =~= inner.parts);
    if out.platform.is_verbatim(t) {
        let n = front(out).len() as int;
        assert forall|k: int| n <= k < t.len() implies #[trigger] t[k] == folder[k - n] by {}
        assert(n == 4);
        crate::path_laws::lemma_join_to_prefix(out.platform, t, file);
        assert(inner.join(file).bytes() =~= t.push(out.platform.main_separator()) + file);
    } else {
        lemma_join_spelling(inner, file);
        assert(front(inner) =~= t.push(out.platform.main_separator()));
    }
    assert(crate::names::bad_place(out, number).bytes() =~= front(out) + bad_spelling(
        out.platform,
        number,
    ));
}

/// The components of a folder that is taken as it is.
pub open spec fn components_of(out: PathView) -> Seq<Seq<u8>> {
    out.platform.components(true, out.bytes(), out.platform.body_start(out.bytes()))
}

/// The path that `names` lead to from a folder that is taken as it is.
pub open spec fn spelled_anew(out: PathView, names: Seq<Seq<u8>>) -> Seq<u8> {
    out.platform.respelled(out.bytes(), components_of(out) + names)
}

/// How the place of a name is spelled that is joined to a folder that is taken as it is.
proof fn lemma_verbatim_spelling(out: PathView, part: Seq<u8>)
    requires
        out.platform.is_verbatim(out.bytes()),
        part.len() > 0,
        !out.platform.escapes(part),
    ensures
        out.join(part).bytes() == spelled_anew(out, out.platform.names(part)),
{
    assert(out.join(part).parts.drop_last() =~= out.parts);
    if out.platform.names(part).contains(crate::path::parent_dir()) {
        lemma_proper_names(out.platform.pieces(part), crate::path::parent_dir());
    }
    crate::path_laws::lemma_join_verbatim(out.platform, out.bytes(), part);
}

/// How the place of a bad name is spelled below a folder that is taken as it is.
proof fn lemma_verbatim_bad_place(out: PathView, number: nat)
    requires
        out.platform.is_verbatim(out.bytes()),
    ensures
        crate::names::bad_place(out, number).bytes() == spelled_anew(
            out,
            seq!["badnames".spec_bytes(), bad_file(number)],
        ),
{
    let platform = out.platform;
    let s = out.bytes();
    let folder = "badnames".spec_bytes();
    let file = bad_file(number);
    let inner = out.join(folder);
    lemma_badnames_stays(platform);
    lemma_bad_names_alone(platform, number);
    lemma_verbatim_spelling(out, folder);
    let names = components_of(out) + seq![folder];
    lemma_verbatim_plain(out, folder);
    crate::path_laws::lemma_join_further(platform, s, names, file);
    assert(inner.join(file).parts.drop_last() =~= inner.parts);
    assert(names.push(file) =~= components_of(out) + seq![folder, file]);
}

/// The components of a folder that is taken as it is, with the names of a part, are plain.
proof fn lemma_verbatim_plain(out: PathView, part: Seq<u8>)
    requires
        out.platform.is_verbatim(out.bytes()),
    ensures
        crate::path_laws::are_plain(components_of(out) + out.platform.names(part)),
{
    let platform = out.platform;
    crate::path_laws::lemma_body_start(platform, out.bytes());
    crate::path_laws::lemma_components_plain(
        platform,
        out.bytes(),
        platform.body_start(out.bytes()),
    );
    crate::path_laws::lemma_names_plain(platform, part);
    let all = components_of(out) + platform.names(part);
    assert forall|i: int| 0 <= i < all.len() implies crate::path_laws::is_plain_name(
        #[trigger] all[i],
    ) by {
        if i < components_of(out).len() {
            assert(all[i] == components_of(out)[i]);
        } else {
            assert(all[i] == platform.names(part)[i - components_of(out).len()]);
        }
    }
}

/// Parts that lead to the same path from a folder that is taken as it is have the same names.
proof fn lemma_verbatim_apart(out: PathView, a: Seq<u8>, b: Seq<u8>)
    requires
        out.platform.is_verbatim(out.bytes()),
        spelled_anew(out, out.platform.names(a)) == spelled_anew(out, out.platform.names(b)),
    ensures
        out.platform.names(a) == out.platform.names(b),
{
    let n = components_of(out).len() as int;
    let (x, y) = (
        components_of(out) + out.platform.names(a),
        components_of(out) + out.platform.names(b),
    );
    lemma_verbatim_plain(out, a);
    lemma_verbatim_plain(out, b);
    crate::path_laws::lemma_respelled_injective(out.platform, out.bytes(), x, y);
    assert(x.skip(n) =~= out.platform.names(a));
    assert(y.skip(n) =~= out.platform.names(b));
}

/// How an entry is spelled that would lie where it goes.
spec fn spelling(out: PathView, raw: Seq<RawEntry>, i: int) -> Seq<u8> {
    if crate::index::placed(out, raw)[i].fault is None {
        raw[i].name
    } else {
        bad_spelling(out.platform, crate::index::places(out.platform, raw.take(i)).number())
    }
}

/// Where an entry goes is told by how it is spelled; below a folder that is taken as it is, by the
/// names that it walks through.
proof fn lemma_spelling(out: PathView, raw: Seq<RawEntry>, i: int)
    requires
        0 <= i < raw.len(),
    ensures
        ({
            let path = crate::index::placed(out, raw)[i].path.bytes();
            if out.platform.is_verbatim(out.bytes()) {
                path == spelled_anew(out, out.platform.names(spelling(out, raw, i)))
            } else {
                path == front(out) + spelling(out, raw, i)
            }
        }),
{
    lemma_placed_at(out, raw, i);
    let number = crate::index::places(out.platform, raw.take(i)).number();
    let is_good = crate::index::placed(out, raw)[i].fault is None;
    if out.platform.is_verbatim(out.bytes()) {
        if is_good {
            lemma_verbatim_spelling(out, raw[i].name);
        } else {
            lemma_verbatim_bad_place(out, number);
            lemma_bad_spelling_key(out.platform, number);
        }
    } else if is_good {
        lemma_join_spelling(out, raw[i].name);
    } else {
        lemma_bad_place_spelling(out, number);
    }
}

/// No entry goes to a path that is not spelled as the output folder with something behind it that
/// does not lead out of it.
pub proof fn law_entries_are_spelled_below(out: PathView, raw: Seq<RawEntry>, i: int)
    requires
        0 <= i < raw.len(),
        !out.platform.is_verbatim(out.bytes()),
    ensures
        ({
            let path = crate::index::placed(out, raw)[i].path.bytes();
            &&& front(out).is_prefix_of(path)
            &&& !out.platform.escapes(path.skip(front(out).len() as int))
        }),
{
    lemma_placed_at(out, raw, i);
    let entry = crate::index::placed(out, raw)[i];
    if entry.fault is None {
        lemma_join_spelling(out, raw[i].name);
        assert(entry.path.bytes().skip(front(out).len() as int) =~= raw[i].name);
    } else {
        let number = crate::index::places(out.platform, raw.take(i)).number();
        let spelling = bad_spelling(out.platform, number);
        lemma_bad_place_spelling(out, number);
        assert(entry.path.bytes().skip(front(out).len() as int) =~= spelling);
        lemma_badnames_bytes();
        lemma_bad_file(number);
        assert(spelling[0] == "badnames".spec_bytes()[0]);
        assert(spelling[1] == "badnames".spec_bytes()[1]);
        lemma_one_piece(out.platform, "badnames".spec_bytes());
        lemma_one_piece(out.platform, bad_file(number));
        lemma_pieces_append(
            out.platform,
            "badnames".spec_bytes(),
            out.platform.main_separator(),
            bad_file(number),
        );
        let pieces = out.platform.pieces(spelling);
        crate::text::lemma_decimal_digits(number);
        if pieces.contains(crate::path::parent_dir()) {
            let k = pieces.index_of(crate::path::parent_dir());
            assert(crate::path::parent_dir().len() == 2);
            assert(pieces[0].len() == 8 && pieces[1].len() >= 5);
        }
    }
}

/// Below a folder that is taken as it is, no entry goes to a path that is not spelled as the
/// components of the folder, and behind them the names that lead to the entry, none of which leads
/// out of it.
pub proof fn law_entries_are_spelled_anew(out: PathView, raw: Seq<RawEntry>, i: int)
    requires
        0 <= i < raw.len(),
        out.platform.is_verbatim(out.bytes()),
    ensures
        ({
            let path = crate::index::placed(out, raw)[i].path;
            let names = path.names().skip(out.names().len() as int);
            &&& path.bytes() == spelled_anew(out, names)
            &&& !names.contains(crate::path::parent_dir())
        }),
{
    lemma_spelling(out, raw, i);
    lemma_placed_at(out, raw, i);
    law_entries_lie_below(out, raw, i);
    let path = crate::index::placed(out, raw)[i].path;
    let names = path.names().skip(out.names().len() as int);
    if crate::index::placed(out, raw)[i].fault is None {
        lemma_join_names(out, raw[i].name);
        assert(names =~= out.platform.names(raw[i].name));
    } else {
        let number = crate::index::places(out.platform, raw.take(i)).number();
        let folder = "badnames".spec_bytes();
        lemma_bad_names_alone(out.platform, number);
        lemma_bad_spelling_key(out.platform, number);
        lemma_join_names(out, folder);
        lemma_join_names(out.join(folder), bad_file(number));
        assert(names =~= seq![folder, bad_file(number)]);
    }
}

/// Different numbers give places among the bad names that are spelled differently.
pub proof fn law_bad_places_differ(out: PathView, a: nat, b: nat)
    requires
        crate::names::bad_place(out, a).bytes() == crate::names::bad_place(out, b).bytes(),
    ensures
        a == b,
{
    lemma_bad_spelling_key(out.platform, a);
    lemma_bad_spelling_key(out.platform, b);
    if out.platform.is_verbatim(out.bytes()) {
        lemma_verbatim_bad_place(out, a);
        lemma_verbatim_bad_place(out, b);
        lemma_verbatim_apart(
            out,
            bad_spelling(out.platform, a),
            bad_spelling(out.platform, b),
        );
    } else {
        lemma_bad_place_spelling(out, a);
        lemma_bad_place_spelling(out, b);
        lemma_same_back(front(out), bad_spelling(out.platform, a), bad_spelling(out.platform, b));
    }
    crate::index::lemma_bad_key_injective(a, b);
}

/// What is the same behind the same is the same.
pub proof fn lemma_same_back(front: Seq<u8>, a: Seq<u8>, b: Seq<u8>)
    requires
        front + a == front + b,
    ensures
        a == b,
{
    assert(a =~= (front + a).skip(front.len() as int));
    assert(b =~= (front + b).skip(front.len() as int));
}

/// The numbers of the bad names go up, and the place of each of them is held from then on; so is
/// that of every entry that goes by its name.
proof fn lemma_places_are_kept(platform: Platform, raw: Seq<RawEntry>, i: int, j: int)
    requires
        0 <= i < j <= raw.len(),
    ensures
        ({
            let then = crate::index::places(platform, raw.take(i));
            let now = crate::index::places(platform, raw.take(j));
            if crate::index::fault_after(platform, raw.take(i), raw[i]) is None {
                crate::names::place_key(platform, raw[i].name) matches Some(key)
                    ==> now.good.contains(key)
            } else {
                &&& then.number() < now.next
                &&& now.bad.contains(crate::names::bad_key(then.number()))
            }
        }),
    decreases j,
{
    assert(raw.take(j).drop_last() =~= raw.take(j - 1));
    assert(raw.take(j).last() == raw[j - 1]);
    if i < j - 1 {
        lemma_places_are_kept(platform, raw, i, j - 1);
        let before = crate::index::places(platform, raw.take(j - 1));
        crate::index::lemma_places(platform, raw.take(j - 1));
        crate::index::lemma_places_step(before, (j - 1) as nat, platform, raw[j - 1].name);
    }
}

/// Entries whose names are bad go to `badnames`, with numbers that go up in their order.
pub proof fn law_bad_names_are_numbered(out: PathView, raw: Seq<RawEntry>, i: int, j: int)
    requires
        0 <= i < j < raw.len(),
        crate::index::placed(out, raw)[i].fault is Some,
        crate::index::placed(out, raw)[j].fault is Some,
    ensures
        ({
            let a = crate::index::places(out.platform, raw.take(i)).number();
            let b = crate::index::places(out.platform, raw.take(j)).number();
            &&& a < b
            &&& crate::index::placed(out, raw)[i].path == crate::names::bad_place(out, a)
            &&& crate::index::placed(out, raw)[j].path == crate::names::bad_place(out, b)
        }),
{
    lemma_placed_at(out, raw, i);
    lemma_placed_at(out, raw, j);
    lemma_places_are_kept(out.platform, raw, i, j);
    crate::index::lemma_places(out.platform, raw.take(j));
    crate::index::lemma_places_step(
        crate::index::places(out.platform, raw.take(j)),
        j as nat,
        out.platform,
        raw[j].name,
    );
}

/// No two entries go to paths that are spelled alike. Below a folder that is taken as it is, where
/// paths are spelled anew, that holds of names of which one walks through other names than the
/// other. Two good names that are spelled differently may still be those of one file.
pub proof fn law_paths_are_spelled_differently(out: PathView, raw: Seq<RawEntry>, i: int, j: int)
    requires
        0 <= i < j < raw.len(),
        out.platform.is_verbatim(out.bytes()) && crate::index::placed(out, raw)[i].fault is None
            && crate::index::placed(out, raw)[j].fault is None ==> out.platform.names(raw[i].name)
            != out.platform.names(raw[j].name),
    ensures
        crate::index::placed(out, raw)[i].path.bytes() != crate::index::placed(
            out,
            raw,
        )[j].path.bytes(),
{
    let platform = out.platform;
    let first = crate::index::placed(out, raw)[i];
    let second = crate::index::placed(out, raw)[j];
    let then = crate::index::places(platform, raw.take(i));
    let now = crate::index::places(platform, raw.take(j));
    lemma_placed_at(out, raw, i);
    lemma_placed_at(out, raw, j);
    lemma_places_are_kept(platform, raw, i, j);
    crate::index::lemma_places(platform, raw.take(j));
    crate::index::lemma_places_step(now, j as nat, platform, raw[j].name);
    lemma_bad_spelling_key(platform, then.number());
    lemma_bad_spelling_key(platform, now.number());
    if first.path.bytes() == second.path.bytes() {
        lemma_spelling(out, raw, i);
        lemma_spelling(out, raw, j);
        let (a, b) = (spelling(out, raw, i), spelling(out, raw, j));
        if platform.is_verbatim(out.bytes()) {
            lemma_verbatim_apart(out, a, b);
        } else {
            lemma_same_back(front(out), a, b);
        }
        assert(platform.names(a) == platform.names(b));
        if first.fault is None && second.fault is None {
            law_good_names_differ(out, raw, i, j);
        } else if first.fault is Some && second.fault is Some {
            law_bad_names_are_numbered(out, raw, i, j);
            law_bad_places_differ(out, then.number(), now.number());
        }
    }
}

/// The place of a bad name is given to no other entry, however the name of that entry spells it.
pub proof fn law_bad_places_are_kept(out: PathView, raw: Seq<RawEntry>, i: int, j: int)
    requires
        0 <= i < raw.len(),
        0 <= j < raw.len(),
        crate::index::placed(out, raw)[i].fault is Some,
        crate::index::placed(out, raw)[j].fault is None,
    ensures
        crate::names::place_key(out.platform, raw[j].name) != Some(
            crate::names::bad_key(crate::index::places(out.platform, raw.take(i)).number()),
        ),
{
    let platform = out.platform;
    lemma_placed_at(out, raw, i);
    lemma_placed_at(out, raw, j);
    if i < j {
        lemma_places_are_kept(platform, raw, i, j);
    } else {
        lemma_places_are_kept(platform, raw, j, i);
        crate::index::lemma_places(platform, raw.take(i));
        crate::index::lemma_places_step(
            crate::index::places(platform, raw.take(i)),
            i as nat,
            platform,
            raw[i].name,
        );
    }
}

/// How many of the entries `raw` have a name that is bad.
pub open spec fn bad_count(platform: Platform, raw: Seq<RawEntry>) -> nat
    decreases raw.len(),
{
    if raw.len() == 0 {
        0
    } else {
        bad_count(platform, raw.drop_last()) + if crate::names::fault(
            platform,
            raw.last().name,
            crate::index::taken(platform, raw.drop_last()),
        ) is None {
            0nat
        } else {
            1nat
        }
    }
}

/// Where no name stands for a place among the bad names, those are numbered from 0 on without a
/// gap, and every other entry goes by its name.
pub proof fn law_bad_names_are_counted(platform: Platform, raw: Seq<RawEntry>)
    requires
        forall|i: int, k: nat|
            0 <= i < raw.len() ==> #[trigger] crate::names::place_key(platform, raw[i].name)
                != Some(#[trigger] crate::names::bad_key(k)),
    ensures
        crate::index::places(platform, raw).next == bad_count(platform, raw),
        crate::index::places(platform, raw).number() == bad_count(platform, raw),
        raw.len() > 0 ==> crate::index::fault_after(platform, raw.drop_last(), raw.last())
            == crate::names::fault(
            platform,
            raw.last().name,
            crate::index::taken(platform, raw.drop_last()),
        ),
    decreases raw.len(),
{
    lemma_no_good_in_the_way(platform, raw);
    let places = crate::index::places(platform, raw);
    if raw.len() > 0 {
        let front = raw.drop_last();
        assert forall|i: int, k: nat|
            0 <= i < front.len() implies #[trigger] crate::names::place_key(platform, front[i].name)
            != Some(#[trigger] crate::names::bad_key(k)) by {
            assert(front[i] == raw[i]);
        }
        law_bad_names_are_counted(platform, front);
        crate::index::lemma_places(platform, front);
        let before = crate::index::places(platform, front);
        if before.is_occupied(platform, raw.last().name) {
            let key = crate::names::place_key(platform, raw.last().name)->0;
            let k = choose|k: nat| k < before.next && #[trigger] crate::names::bad_key(k) == key;
            assert(raw[raw.len() - 1] == raw.last());
            assert(crate::names::place_key(platform, raw[raw.len() - 1].name) != Some(
                crate::names::bad_key(k),
            ));
        }
    }
    assert(crate::index::is_free_number(places.good, places.next, places.next));
    crate::index::lemma_free_number_unique(places, places.next);
}

/// Where no name stands for a place among the bad names, no entry that goes by its name has one.
proof fn lemma_no_good_in_the_way(platform: Platform, raw: Seq<RawEntry>)
    requires
        forall|i: int, k: nat|
            0 <= i < raw.len() ==> #[trigger] crate::names::place_key(platform, raw[i].name)
                != Some(#[trigger] crate::names::bad_key(k)),
    ensures
        forall|k: nat|
            !crate::index::places(platform, raw).good.contains(#[trigger] crate::names::bad_key(k)),
    decreases raw.len(),
{
    if raw.len() > 0 {
        let front = raw.drop_last();
        assert forall|i: int, k: nat|
            0 <= i < front.len() implies #[trigger] crate::names::place_key(platform, front[i].name)
            != Some(#[trigger] crate::names::bad_key(k)) by {
            assert(front[i] == raw[i]);
        }
        lemma_no_good_in_the_way(platform, front);
        assert forall|k: nat| !crate::index::places(platform, raw).good.contains(
            #[trigger] crate::names::bad_key(k),
        ) by {
            assert(raw[raw.len() - 1] == raw.last());
            assert(crate::names::place_key(platform, raw[raw.len() - 1].name) != Some(
                crate::names::bad_key(k),
            ));
        }
    }
}

/// Where names are case sensitive, two names count as the same only if they are the same.
pub proof fn law_unix_keys(a: Seq<u8>, b: Seq<u8>)
    requires
        vstd::utf8::valid_utf8(a),
        vstd::utf8::valid_utf8(b),
        crate::names::name_key(Platform::Unix, a) == crate::names::name_key(Platform::Unix, b),
    ensures
        a == b,
{
    vstd::utf8::decode_utf8_encode_utf8(a);
    vstd::utf8::decode_utf8_encode_utf8(b);
}

} // verus!
