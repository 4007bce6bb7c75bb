//! The header of an archive.

use vstd::prelude::*;

use crate::error::{gma_err, map_io, ErrorView, FastGmadError};
use crate::reader::{Parsed, Reader};
use crate::text::{decimal_text, join2, join3};

verus! {

/// The bytes that every archive starts with: `GMAD`.
pub const GMA_MAGIC: [u8; 4] = [0x47, 0x4d, 0x41, 0x44];

/// The newest version of the format.
pub const GMA_VERSION: u8 = 3;

/// What the header tells: the addon's title, and its description, which is where its JSON is.
pub struct HeaderView {
    pub title: Seq<u8>,
    pub addon_json: Seq<u8>,
}

/// The position behind the list of required content that starts at `pos`: strings, up to and with
/// an empty one.
pub open spec fn past_required(data: Seq<u8>, pos: int) -> Option<int>
    decreases data.len() - pos,
{
    if pos < 0 {
        None
    } else {
        proof {
            crate::reader::lemma_nul_from(data, pos);
        }
        match crate::reader::nul_from(data, pos) {
            None => None,
            Some(nul) => if nul == pos {
                Some(nul + 1)
            } else {
                past_required(data, nul + 1)
            },
        }
    }
}

/// The message about a version that is too new.
pub open spec fn unsupported(version: u8) -> Seq<char> {
    "unsupported GMA version "@ + crate::text::decimal(version as nat)
        + ", this tool supports up to version "@ + crate::text::decimal(GMA_VERSION as nat)
}

/// What follows the required content: title, description, author, and a version number.
pub open spec fn addon(data: Seq<u8>, pos: int) -> Parsed<HeaderView> {
    match crate::reader::nul_from(data, pos) {
        None => Parsed::Ended("reading addon name"@),
        Some(title) => match crate::reader::nul_from(data, title + 1) {
            None => Parsed::Ended("reading addon description"@),
            Some(json) => match crate::reader::nul_from(data, json + 1) {
                None => Parsed::Ended("reading addon author"@),
                Some(author) => if author + 5 > data.len() {
                    Parsed::Ended("reading addon version"@)
                } else {
                    Parsed::Done(
                        HeaderView {
                            title: data.subrange(pos, title),
                            addon_json: data.subrange(title + 1, json),
                        },
                        author + 5,
                    )
                },
            },
        },
    }
}

/// The header that starts at `pos`: magic bytes, a version, SteamID and timestamp, from version 2
/// on the required content, and the addon's own strings.
pub open spec fn header(data: Seq<u8>, pos: int) -> Parsed<HeaderView> {
    if pos + 4 > data.len() {
        Parsed::Ended("reading GMA magic"@)
    } else if data.subrange(pos, pos + 4) != GMA_MAGIC@ {
        Parsed::Fault("bad magic bytes, this is not a GMA file"@)
    } else if pos + 5 > data.len() {
        Parsed::Ended("reading GMA version"@)
    } else if data[pos + 4] > GMA_VERSION {
        Parsed::Fault(unsupported(data[pos + 4]))
    } else if pos + 21 > data.len() {
        Parsed::Ended("reading SteamID and timestamp"@)
    } else if data[pos + 4] > 1 {
        match past_required(data, pos + 21) {
            None => Parsed::Ended("reading required content"@),
            Some(next) => addon(data, next),
        }
    } else {
        addon(data, pos + 21)
    }
}

/// Reads the header: the title and the description of the addon.
pub fn read_header(r: &mut Reader) -> (out: Result<(Vec<u8>, Vec<u8>), FastGmadError>)
    requires
        old(r)@.valid(),
    ensures
        final(r)@.valid(),
        match header(old(r)@.data, old(r)@.pos) {
            Parsed::Ended(context) => {
                &&& out matches Err(e)
                &&& e@ == ErrorView::reading(old(r)@.end, context)
                &&& final(r)@.ran_out
            },
            Parsed::Fault(message) => {
                &&& out matches Err(e)
                &&& e@ == ErrorView::gma(message)
                &&& final(r)@.ran_out == old(r)@.ran_out
            },
            Parsed::Done(head, next) => {
                &&& out matches Ok((title, addon_json))
                &&& title@ == head.title
                &&& addon_json@ == head.addon_json
                &&& final(r)@ == old(r)@.moved_to(next)
            },
        },
{
    let ghost start = r@;
    let magic = match map_io(r.read_exact(4), "reading GMA magic") {
        Ok(magic) => magic,
        Err(e) => return Err(e),
    };
    if magic[0] != GMA_MAGIC[0] || magic[1] != GMA_MAGIC[1] || magic[2] != GMA_MAGIC[2] || magic[3]
        != GMA_MAGIC[3] {
        assert(start.data.subrange(start.pos, start.pos + 4) != GMA_MAGIC@);
        return Err(gma_err(String::from_str("bad magic bytes, this is not a GMA file")));
    }
    assert(start.data.subrange(start.pos, start.pos + 4) =~= GMA_MAGIC@);

    let version = match map_io(r.read_exact(1), "reading GMA version") {
        Ok(bytes) => bytes[0],
        Err(e) => return Err(e),
    };
    if version > GMA_VERSION {
        let given = decimal_text(version as u64);
        let newest = decimal_text(GMA_VERSION as u64);
        let message = join3(
            "unsupported GMA version ",
            given.as_str(),
            ", this tool supports up to version ",
        );
        return Err(gma_err(join2(message.as_str(), newest.as_str())));
    }
    match map_io(r.skip(16), "reading SteamID and timestamp") {
        Ok(_) => {},
        Err(e) => return Err(e),
    }
    if version > 1 {
        match skip_required(r) {
            Ok(_) => {},
            Err(e) => return Err(e),
        }
    }
    let title = match map_io(r.read_nul_str(), "reading addon name") {
        Ok(bytes) => vstd::slice::slice_to_vec(bytes),
        Err(e) => return Err(e),
    };
    let addon_json = match map_io(r.read_nul_str(), "reading addon description") {
        Ok(bytes) => vstd::slice::slice_to_vec(bytes),
        Err(e) => return Err(e),
    };
    match map_io(r.skip_nul_str(), "reading addon author") {
        Ok(_) => {},
        Err(e) => return Err(e),
    }
    match map_io(r.skip(4), "reading addon version") {
        Ok(_) => {},
        Err(e) => return Err(e),
    }
    Ok((title, addon_json))
}

/// The version of an archive that is read though it is not the newest one, where `data` is what the
/// archive starts with; as soon as `data` goes as far as that.
pub fn older_version(data: &[u8]) -> (version: Option<u8>)
    ensures
        version == if data@.len() >= 5 && data@.take(4) == GMA_MAGIC@ && data@[4] < GMA_VERSION {
            Some(data@[4])
        } else {
            None
        },
{
    if data.len() < 5 || data[4] >= GMA_VERSION {
        return None;
    }
    if data[0] != GMA_MAGIC[0] || data[1] != GMA_MAGIC[1] || data[2] != GMA_MAGIC[2] || data[3]
        != GMA_MAGIC[3] {
        assert(data@.take(4) != GMA_MAGIC@);
        return None;
    }
    assert(data@.take(4) =~= GMA_MAGIC@);
    Some(data[4])
}

/// Leaves out the list of required content.
fn skip_required(r: &mut Reader) -> (out: Result<(), FastGmadError>)
    requires
        old(r)@.valid(),
    ensures
        final(r)@.valid(),
        match past_required(old(r)@.data, old(r)@.pos) {
            None => {
                &&& out matches Err(e)
                &&& e@ == ErrorView::reading(old(r)@.end, "reading required content"@)
                &&& final(r)@.ran_out
            },
            Some(next) => out is Ok && final(r)@ == old(r)@.moved_to(next),
        },
{
    let ghost start = r@;
    loop
        invariant
            r@.valid(),
            r@ == start.moved_to(r@.pos),
            start == old(r)@,
            past_required(start.data, r@.pos) == past_required(start.data, start.pos),
        decreases r@.data.len() - r@.pos,
    {
        let content = match map_io(r.read_nul_str(), "reading required content") {
            Ok(bytes) => bytes,
            Err(e) => return Err(e),
        };
        if content.len() == 0 {
            return Ok(());
        }
    }
}

} // verus!
