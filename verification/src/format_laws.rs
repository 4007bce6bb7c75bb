//! What holds of the format of an archive: what is read is what was written, and what a longer
//! input adds does not change what was read.

use vstd::prelude::*;

use crate::header::{GMA_MAGIC, GMA_VERSION};
use crate::reader::Parsed;

verus! {

/// `n` in `width` bytes, least significant byte first.
pub open spec fn le_bytes(n: nat, width: nat) -> Seq<u8>
    decreases width,
{
    if width == 0 {
        Seq::empty()
    } else {
        seq![(n % 256) as u8] + le_bytes(n / 256, (width - 1) as nat)
    }
}

/// How many numbers `width` bytes can spell.
pub open spec fn le_range(width: nat) -> nat
    decreases width,
{
    if width == 0 {
        1
    } else {
        256 * le_range((width - 1) as nat)
    }
}

/// A number that is written in so many bytes is read again as it was.
pub proof fn law_numbers_round_trip(n: nat, width: nat)
    requires
        n < le_range(width),
    ensures
        le_bytes(n, width).len() == width,
        crate::reader::le_value(le_bytes(n, width)) == n,
    decreases width,
{
    if width > 0 {
        law_numbers_round_trip(n / 256, (width - 1) as nat);
        assert(le_bytes(n, width).drop_first() =~= le_bytes(n / 256, (width - 1) as nat));
    }
}

/// Four bytes spell the 32-bit numbers, eight the 64-bit ones.
pub proof fn lemma_le_ranges()
    ensures
        le_range(4) == 0x1_0000_0000,
        le_range(8) == 0x1_0000_0000_0000_0000,
{
    reveal_with_fuel(le_range, 9);
}

/// Whether a string holds no NUL, and so can be written with one behind it.
pub open spec fn is_plain(text: Seq<u8>) -> bool {
    forall|i: int| 0 <= i < text.len() ==> #[trigger] text[i] != 0
}

/// A string as it is written: with a NUL behind it.
pub open spec fn nul_bytes(text: Seq<u8>) -> Seq<u8> {
    text.push(0)
}

/// A NUL that was found is found as well where more bytes follow.
proof fn lemma_nul_stable(data: Seq<u8>, more: Seq<u8>, pos: int)
    requires
        0 <= pos,
        crate::reader::nul_from(data, pos) is Some,
    ensures
        crate::reader::nul_from(data + more, pos) == crate::reader::nul_from(data, pos),
    decreases data.len() - pos,
{
    assert(pos < data.len());
    assert((data + more)[pos] == data[pos]);
    if data[pos] != 0 {
        lemma_nul_stable(data, more, pos + 1);
    }
}

/// A string that lies at `pos`, with its NUL, is found there.
pub proof fn lemma_nul_at(data: Seq<u8>, pos: int, text: Seq<u8>)
    requires
        0 <= pos,
        pos + text.len() < data.len(),
        is_plain(text),
        data.subrange(pos, pos + text.len() + 1) == nul_bytes(text),
    ensures
        crate::reader::nul_from(data, pos) == Some(pos + text.len()),
        data.subrange(pos, pos + text.len()) == text,
{
    let here = data.subrange(pos, pos + text.len() + 1);
    crate::reader::lemma_nul_from(data, pos);
    assert forall|i: int| pos <= i < pos + text.len() implies data[i] != 0 by {
        assert(here[i - pos] == data[i]);
        assert(nul_bytes(text)[i - pos] == text[i - pos]);
    }
    assert(here[text.len() as int] == data[pos + text.len()]);
    assert(data[pos + text.len()] == 0);
    assert(data.subrange(pos, pos + text.len()) =~= here.drop_last());
    assert(nul_bytes(text).drop_last() =~= text);
}

/// The end of the required content that was found is found as well where more bytes follow.
proof fn lemma_required_stable(data: Seq<u8>, more: Seq<u8>, pos: int)
    requires
        0 <= pos,
        crate::header::past_required(data, pos) is Some,
    ensures
        crate::header::past_required(data + more, pos) == crate::header::past_required(data, pos),
        pos < crate::header::past_required(data, pos)->0 <= data.len(),
    decreases data.len() - pos,
{
    lemma_nul_stable(data, more, pos);
    crate::reader::lemma_nul_from(data, pos);
    let nul = crate::reader::nul_from(data, pos)->0;
    if nul != pos {
        lemma_required_stable(data, more, nul + 1);
    }
}

/// What the addon's strings came to does not change where more bytes follow, unless they had ended.
proof fn lemma_addon_stable(data: Seq<u8>, more: Seq<u8>, pos: int)
    requires
        0 <= pos,
        !(crate::header::addon(data, pos) is Ended),
    ensures
        crate::header::addon(data + more, pos) == crate::header::addon(data, pos),
        crate::header::addon(data, pos) matches Parsed::Done(_, next) ==> pos < next <= data.len(),
{
    crate::reader::lemma_nul_from(data, pos);
    lemma_nul_stable(data, more, pos);
    let title = crate::reader::nul_from(data, pos)->0;
    crate::reader::lemma_nul_from(data, title + 1);
    lemma_nul_stable(data, more, title + 1);
    let json = crate::reader::nul_from(data, title + 1)->0;
    crate::reader::lemma_nul_from(data, json + 1);
    lemma_nul_stable(data, more, json + 1);
    assert((data + more).subrange(pos, title) =~= data.subrange(pos, title));
    assert((data + more).subrange(title + 1, json) =~= data.subrange(title + 1, json));
}

/// What the header came to does not change where more bytes follow, unless the bytes had ended
/// before it did.
pub proof fn law_header_is_stable(data: Seq<u8>, more: Seq<u8>, pos: int)
    requires
        0 <= pos,
        !(crate::header::header(data, pos) is Ended),
    ensures
        crate::header::header(data + more, pos) == crate::header::header(data, pos),
        crate::header::header(data, pos) matches Parsed::Done(_, next) ==> pos < next
            <= data.len(),
{
    let all = data + more;
    assert(all.subrange(pos, pos + 4) =~= data.subrange(pos, pos + 4));
    if pos + 21 <= data.len() {
        assert(all[pos + 4] == data[pos + 4]);
        if data[pos + 4] > 1 && data[pos + 4] <= GMA_VERSION && data.subrange(pos, pos + 4)
            == GMA_MAGIC@ {
            lemma_required_stable(data, more, pos + 21);
            lemma_addon_stable(data, more, crate::header::past_required(data, pos + 21)->0);
        } else if data[pos + 4] <= 1 && data.subrange(pos, pos + 4) == GMA_MAGIC@ {
            lemma_addon_stable(data, more, pos + 21);
        }
    } else if pos + 5 <= data.len() {
        assert(all[pos + 4] == data[pos + 4]);
    }
}

/// What the index came to does not change where more bytes follow, unless the bytes had ended
/// before it did.
pub proof fn law_index_is_stable(data: Seq<u8>, more: Seq<u8>, pos: int, offset: nat)
    requires
        0 <= pos,
        !(crate::index::index_from(data, pos, offset) is Ended),
    ensures
        crate::index::index_from(data + more, pos, offset) == crate::index::index_from(
            data,
            pos,
            offset,
        ),
        crate::index::index_from(data, pos, offset) matches Parsed::Done(_, next) ==> pos < next
            <= data.len(),
    decreases data.len() - pos,
{
    let all = data + more;
    assert(all.subrange(pos, pos + 4) =~= data.subrange(pos, pos + 4));
    if crate::reader::le_value(data.subrange(pos, pos + 4)) != 0 {
        crate::reader::lemma_nul_from(data, pos + 4);
        lemma_nul_stable(data, more, pos + 4);
        let nul = crate::reader::nul_from(data, pos + 4)->0;
        assert(all.subrange(nul + 1, nul + 9) =~= data.subrange(nul + 1, nul + 9));
        assert(all.subrange(pos + 4, nul) =~= data.subrange(pos + 4, nul));
        let size = crate::reader::le_value(data.subrange(nul + 1, nul + 9));
        if offset + size <= u64::MAX {
            law_index_is_stable(data, more, nul + 13, offset + size);
        }
    }
}

/// A NUL that was found is found as well where bytes behind it are missing.
proof fn lemma_nul_local(data: Seq<u8>, len: int, pos: int)
    requires
        0 <= pos,
        0 <= len <= data.len(),
        crate::reader::nul_from(data, pos) matches Some(nul) && nul < len,
    ensures
        crate::reader::nul_from(data.take(len), pos) == crate::reader::nul_from(data, pos),
    decreases data.len() - pos,
{
    crate::reader::lemma_nul_from(data, pos);
    assert(data.take(len)[pos] == data[pos]);
    if data[pos] != 0 {
        lemma_nul_local(data, len, pos + 1);
    }
}

/// The end of the required content is found as well where bytes behind it are missing.
proof fn lemma_required_local(data: Seq<u8>, len: int, pos: int)
    requires
        0 <= pos,
        0 <= len <= data.len(),
        crate::header::past_required(data, pos) matches Some(end) && end <= len,
    ensures
        crate::header::past_required(data.take(len), pos) == crate::header::past_required(
            data,
            pos,
        ),
    decreases data.len() - pos,
{
    crate::reader::lemma_nul_from(data, pos);
    let nul = crate::reader::nul_from(data, pos)->0;
    if nul != pos {
        assert(data + Seq::<u8>::empty() =~= data);
        lemma_required_stable(data, Seq::empty(), nul + 1);
        lemma_nul_local(data, len, pos);
        lemma_required_local(data, len, nul + 1);
    } else {
        lemma_nul_local(data, len, pos);
    }
}

/// The addon's strings are found as well where bytes behind them are missing.
proof fn lemma_addon_local(data: Seq<u8>, len: int, pos: int)
    requires
        0 <= pos,
        0 <= len <= data.len(),
        crate::header::addon(data, pos) matches Parsed::Done(_, next) && next <= len,
    ensures
        crate::header::addon(data.take(len), pos) == crate::header::addon(data, pos),
{
    let front = data.take(len);
    crate::reader::lemma_nul_from(data, pos);
    let title = crate::reader::nul_from(data, pos)->0;
    crate::reader::lemma_nul_from(data, title + 1);
    let json = crate::reader::nul_from(data, title + 1)->0;
    crate::reader::lemma_nul_from(data, json + 1);
    lemma_nul_local(data, len, pos);
    lemma_nul_local(data, len, title + 1);
    lemma_nul_local(data, len, json + 1);
    assert(front.subrange(pos, title) =~= data.subrange(pos, title));
    assert(front.subrange(title + 1, json) =~= data.subrange(title + 1, json));
}

/// A header is read as well where bytes behind it are missing.
pub proof fn law_header_is_local(data: Seq<u8>, len: int, pos: int)
    requires
        0 <= pos,
        0 <= len <= data.len(),
        crate::header::header(data, pos) matches Parsed::Done(_, next) && next <= len,
    ensures
        crate::header::header(data.take(len), pos) == crate::header::header(data, pos),
{
    let front = data.take(len);
    assert(data + Seq::<u8>::empty() =~= data);
    if data[pos + 4] > 1 {
        lemma_required_stable(data, Seq::empty(), pos + 21);
        let next = crate::header::past_required(data, pos + 21)->0;
        lemma_addon_stable(data, Seq::empty(), next);
        lemma_required_local(data, len, pos + 21);
        lemma_addon_local(data, len, next);
    } else {
        lemma_addon_stable(data, Seq::empty(), pos + 21);
        lemma_addon_local(data, len, pos + 21);
    }
    assert(front.subrange(pos, pos + 4) =~= data.subrange(pos, pos + 4));
    assert(front[pos + 4] == data[pos + 4]);
}

/// An archive that is cut off within its header or its index is found to have ended too early, at
/// the place where it was cut off: a header before that is read as it is.
pub proof fn law_cut_off_head_is_noticed(data: Seq<u8>, len: int)
    requires
        0 <= len <= data.len(),
        crate::header::header(data, 0) is Done,
        crate::index::index_from(data, crate::header::header(data, 0)->Done_1, 0) is Done,
    ensures
        ({
            let header_end = crate::header::header(data, 0)->Done_1;
            let index_end = crate::index::index_from(data, header_end, 0)->Done_1;
            &&& len < header_end ==> crate::header::header(data.take(len), 0) is Ended
            &&& header_end <= len < index_end ==> {
                &&& crate::header::header(data.take(len), 0) == crate::header::header(data, 0)
                &&& crate::index::index_from(data.take(len), header_end, 0) is Ended
            }
        }),
{
    let front = data.take(len);
    let rest = data.skip(len);
    assert(front + rest =~= data);
    let header_end = crate::header::header(data, 0)->Done_1;
    if header_end <= len {
        law_header_is_local(data, len, 0);
    } else if !(crate::header::header(front, 0) is Ended) {
        law_header_is_stable(front, rest, 0);
    }
    assert(data + Seq::<u8>::empty() =~= data);
    law_header_is_stable(data, Seq::empty(), 0);
    if !(crate::index::index_from(front, header_end, 0) is Ended) {
        law_index_is_stable(front, rest, header_end, 0);
    }
}

} // verus!
