//! Reading the head of an archive out of the bytes that a stream has given so far.

use vstd::prelude::*;

use crate::error::{FailureView, IoFailure};

verus! {

/// The outcome of parsing the bytes of `data` from some position on.
pub enum Parsed<T> {
    /// The bytes ended while this was being read.
    Ended(Seq<char>),
    /// The bytes are not what they should be; the message says how.
    Fault(Seq<char>),
    /// The value that was read, and the position behind it.
    Done(T, int),
}

/// The position of the first NUL of `data` at or behind `pos`.
pub open spec fn nul_from(data: Seq<u8>, pos: int) -> Option<int>
    decreases data.len() - pos,
{
    if pos < 0 || pos >= data.len() {
        None
    } else if data[pos] == 0 {
        Some(pos)
    } else {
        nul_from(data, pos + 1)
    }
}

/// Where there is a NUL to find, it lies at or behind `pos`, and it is the first one there.
pub proof fn lemma_nul_from(data: Seq<u8>, pos: int)
    requires
        0 <= pos,
    ensures
        match nul_from(data, pos) {
            Some(nul) => {
                &&& pos <= nul < data.len()
                &&& data[nul] == 0
                &&& forall|i: int| pos <= i < nul ==> data[i] != 0
            },
            None => forall|i: int| pos <= i < data.len() ==> data[i] != 0,
        },
    decreases data.len() - pos,
{
    if pos < data.len() && data[pos] != 0 {
        lemma_nul_from(data, pos + 1);
    }
}

/// The number that `bytes` spells, least significant byte first.
pub open spec fn le_value(bytes: Seq<u8>) -> nat
    decreases bytes.len(),
{
    if bytes.len() == 0 {
        0
    } else {
        bytes[0] as nat + 256 * le_value(bytes.drop_first())
    }
}

/// A stream: the bytes it has given, how many of them were consumed, and what a read past the
/// last of them comes to.
pub struct Reader<'a> {
    data: &'a [u8],
    pos: usize,
    end: IoFailure,
    ran_out: bool,
}

/// What a [`Reader`] holds.
#[verifier::ext_equal]
pub struct ReaderView {
    pub data: Seq<u8>,
    pub pos: int,
    pub end: FailureView,
    pub ran_out: bool,
}

impl<'a> View for Reader<'a> {
    type V = ReaderView;

    closed spec fn view(&self) -> ReaderView {
        ReaderView {
            data: self.data@,
            pos: self.pos as int,
            end: self.end@,
            ran_out: self.ran_out,
        }
    }
}

impl ReaderView {
    /// No more was consumed than there is.
    pub open spec fn valid(self) -> bool {
        0 <= self.pos <= self.data.len() <= usize::MAX
    }

    /// The reader with everything before `pos` consumed.
    pub open spec fn moved_to(self, pos: int) -> ReaderView {
        ReaderView { pos, ..self }
    }

    /// The reader after a read for which there were too few bytes.
    pub open spec fn spent(self) -> ReaderView {
        ReaderView { ran_out: true, ..self }
    }
}

impl<'a> Reader<'a> {
    /// Reads `data` from its start; a read past its end comes to `end`.
    pub fn new(data: &'a [u8], end: IoFailure) -> (r: Reader<'a>)
        ensures
            r@ == (ReaderView { data: data@, pos: 0, end: end@, ran_out: false }),
            r@.valid(),
    {
        assert(data@.len() == data.len());
        Reader { data, pos: 0, end, ran_out: false }
    }

    /// How many bytes were consumed.
    pub fn position(&self) -> (pos: usize)
        ensures
            pos == self@.pos,
    {
        self.pos
    }

    /// Whether a read wanted more bytes than were left.
    pub fn has_run_out(&self) -> (yes: bool)
        ensures
            yes == self@.ran_out,
    {
        self.ran_out
    }

    /// The next `n` bytes.
    pub fn read_exact(&mut self, n: u64) -> (out: Result<&'a [u8], IoFailure>)
        requires
            old(self)@.valid(),
        ensures
            final(self)@.valid(),
            match out {
                Ok(bytes) => {
                    &&& old(self)@.pos + n <= old(self)@.data.len()
                    &&& bytes@ == old(self)@.data.subrange(old(self)@.pos, old(self)@.pos + n)
                    &&& final(self)@ == old(self)@.moved_to(old(self)@.pos + n)
                },
                Err(failure) => {
                    &&& old(self)@.pos + n > old(self)@.data.len()
                    &&& failure@ == old(self)@.end
                    &&& final(self)@ == old(self)@.spent()
                },
            },
    {
        let left = self.data.len() - self.pos;
        if n > left as u64 {
            self.ran_out = true;
            return Err(self.end.copy());
        }
        let next = self.pos + n as usize;
        let bytes = vstd::slice::slice_subrange(self.data, self.pos, next);
        self.pos = next;
        Ok(bytes)
    }

    /// Leaves out the next `n` bytes.
    pub fn skip(&mut self, n: u64) -> (out: Result<(), IoFailure>)
        requires
            old(self)@.valid(),
        ensures
            final(self)@.valid(),
            match out {
                Ok(_) => {
                    &&& old(self)@.pos + n <= old(self)@.data.len()
                    &&& final(self)@ == old(self)@.moved_to(old(self)@.pos + n)
                },
                Err(failure) => {
                    &&& old(self)@.pos + n > old(self)@.data.len()
                    &&& failure@ == old(self)@.end
                    &&& final(self)@ == old(self)@.spent()
                },
            },
    {
        match self.read_exact(n) {
            Ok(_) => Ok(()),
            Err(failure) => Err(failure),
        }
    }

    /// The bytes up to the next NUL, which is consumed too.
    pub fn read_nul_str(&mut self) -> (out: Result<&'a [u8], IoFailure>)
        requires
            old(self)@.valid(),
        ensures
            final(self)@.valid(),
            match out {
                Ok(bytes) => {
                    &&& nul_from(old(self)@.data, old(self)@.pos) matches Some(nul)
                    &&& old(self)@.pos <= nul < old(self)@.data.len()
                    &&& bytes@ == old(self)@.data.subrange(old(self)@.pos, nul)
                    &&& final(self)@ == old(self)@.moved_to(nul + 1)
                },
                Err(failure) => {
                    &&& nul_from(old(self)@.data, old(self)@.pos) is None
                    &&& failure@ == old(self)@.end
                    &&& final(self)@ == old(self)@.spent()
                },
            },
    {
        let start = self.pos;
        let mut i = start;
        while i < self.data.len()
            invariant
                start == self.pos,
                start <= i <= self.data@.len(),
                *self == *old(self),
                nul_from(self.data@, start as int) == nul_from(self.data@, i as int),
            decreases self.data@.len() - i,
        {
            if self.data[i] == 0 {
                self.pos = i + 1;
                return Ok(vstd::slice::slice_subrange(self.data, start, i));
            }
            i = i + 1;
        }
        self.ran_out = true;
        Err(self.end.copy())
    }

    /// Leaves out the bytes up to the next NUL, and the NUL.
    pub fn skip_nul_str(&mut self) -> (out: Result<(), IoFailure>)
        requires
            old(self)@.valid(),
        ensures
            final(self)@.valid(),
            match out {
                Ok(_) => {
                    &&& nul_from(old(self)@.data, old(self)@.pos) matches Some(nul)
                    &&& old(self)@.pos <= nul < old(self)@.data.len()
                    &&& final(self)@ == old(self)@.moved_to(nul + 1)
                },
                Err(failure) => {
                    &&& nul_from(old(self)@.data, old(self)@.pos) is None
                    &&& failure@ == old(self)@.end
                    &&& final(self)@ == old(self)@.spent()
                },
            },
    {
        match self.read_nul_str() {
            Ok(_) => Ok(()),
            Err(failure) => Err(failure),
        }
    }
}

/// A 32-bit number, least significant byte first.
pub fn read_u32_le(r: &mut Reader) -> (out: Result<u32, IoFailure>)
    requires
        old(r)@.valid(),
    ensures
        final(r)@.valid(),
        match out {
            Ok(value) => {
                &&& old(r)@.pos + 4 <= old(r)@.data.len()
                &&& value == le_value(old(r)@.data.subrange(old(r)@.pos, old(r)@.pos + 4))
                &&& final(r)@ == old(r)@.moved_to(old(r)@.pos + 4)
            },
            Err(failure) => {
                &&& old(r)@.pos + 4 > old(r)@.data.len()
                &&& failure@ == old(r)@.end
                &&& final(r)@ == old(r)@.spent()
            },
        },
{
    match r.read_exact(4) {
        Ok(b) => {
            proof {
                reveal_with_fuel(le_value, 5);
            }
            let high: u32 = b[2] as u32 + 256 * b[3] as u32;
            let low: u32 = b[0] as u32 + 256 * b[1] as u32;
            Ok(low + 65536 * high)
        },
        Err(failure) => Err(failure),
    }
}

/// A 64-bit number, least significant byte first.
pub fn read_u64_le(r: &mut Reader) -> (out: Result<u64, IoFailure>)
    requires
        old(r)@.valid(),
    ensures
        final(r)@.valid(),
        match out {
            Ok(value) => {
                &&& old(r)@.pos + 8 <= old(r)@.data.len()
                &&& value == le_value(old(r)@.data.subrange(old(r)@.pos, old(r)@.pos + 8))
                &&& final(r)@ == old(r)@.moved_to(old(r)@.pos + 8)
            },
            Err(failure) => {
                &&& old(r)@.pos + 8 > old(r)@.data.len()
                &&& failure@ == old(r)@.end
                &&& final(r)@ == old(r)@.spent()
            },
        },
{
    match r.read_exact(8) {
        Ok(b) => {
            proof {
                reveal_with_fuel(le_value, 9);
            }
            let w0: u64 = b[0] as u64 + 256 * b[1] as u64;
            let w1: u64 = b[2] as u64 + 256 * b[3] as u64;
            let w2: u64 = b[4] as u64 + 256 * b[5] as u64;
            let w3: u64 = b[6] as u64 + 256 * b[7] as u64;
            let low: u64 = w0 + 65536 * w1;
            let high: u64 = w2 + 65536 * w3;
            Ok(low + 0x1_0000_0000 * high)
        },
        Err(failure) => Err(failure),
    }
}

} // verus!
