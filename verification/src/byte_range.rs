//! Byte ranges and their resolution against a known total size.
//!
//! A byte range addresses a contiguous span of a byte sequence whose total
//! length is only known at resolution time: either an absolute span from the
//! start, an open-ended span from an offset, or a suffix of a given length.

use vstd::prelude::*;

verus! {

/// A byte range, resolved against a total size `n`:
/// `FromStart(o, None)` resolves to `[o, n)`, `FromStart(o, Some(l))` to
/// `[o, o + l)`, and `FromEnd(s)` to `[n - s, n)`.
#[derive(Clone, Copy, Debug)]
pub enum ByteRange {
    /// A range starting at the given offset, spanning either to the end of
    /// the value or over the given number of bytes.
    FromStart(u64, Option<u64>),
    /// A suffix of the given length.
    FromEnd(u64),
}

impl ByteRange {
    /// Whether the range resolves to an interval contained in `[0, n]`.
    pub open spec fn spec_is_valid(self, n: u64) -> bool {
        match self {
            ByteRange::FromStart(offset, None) => offset <= n,
            ByteRange::FromStart(offset, Some(length)) => offset + length <= n,
            ByteRange::FromEnd(suffix) => suffix <= n,
        }
    }

    /// The first byte position of the resolved range.
    pub open spec fn spec_start(self, n: u64) -> int {
        match self {
            ByteRange::FromStart(offset, _) => offset as int,
            ByteRange::FromEnd(suffix) => n - suffix,
        }
    }

    /// One past the last byte position of the resolved range.
    pub open spec fn spec_end(self, n: u64) -> int {
        match self {
            ByteRange::FromStart(_, None) => n as int,
            ByteRange::FromStart(offset, Some(length)) => offset + length,
            ByteRange::FromEnd(_) => n as int,
        }
    }

    /// The number of bytes the resolved range spans.
    pub open spec fn spec_length(self, n: u64) -> int {
        self.spec_end(n) - self.spec_start(n)
    }

    /// Whether the range resolves to an interval contained in `[0, n]`.
    pub fn is_valid(&self, n: u64) -> (r: bool)
        ensures
            r == self.spec_is_valid(n),
    {
        match self {
            ByteRange::FromStart(offset, None) => *offset <= n,
            ByteRange::FromStart(offset, Some(length)) => {
                *length <= n && *offset <= n - *length
            },
            ByteRange::FromEnd(suffix) => *suffix <= n,
        }
    }

    /// The first byte position of the range resolved against total size `n`.
    pub fn start(&self, n: u64) -> (r: u64)
        requires
            self.spec_is_valid(n),
        ensures
            r == self.spec_start(n),
    {
        match self {
            ByteRange::FromStart(offset, _) => *offset,
            ByteRange::FromEnd(suffix) => n - *suffix,
        }
    }

    /// One past the last byte position of the range resolved against `n`.
    pub fn end(&self, n: u64) -> (r: u64)
        requires
            self.spec_is_valid(n),
        ensures
            r == self.spec_end(n),
    {
        match self {
            ByteRange::FromStart(_, None) => n,
            ByteRange::FromStart(offset, Some(length)) => *offset + *length,
            ByteRange::FromEnd(_) => n,
        }
    }

    /// The number of bytes of the range resolved against total size `n`.
    pub fn length(&self, n: u64) -> (r: u64)
        requires
            self.spec_is_valid(n),
        ensures
            r == self.spec_length(n),
    {
        self.end(n) - self.start(n)
    }

    /// Resolves the range against total size `n` to a `(start, length)`
    /// pair, or reports that it is not contained in `[0, n]`.
    pub fn resolve(&self, n: u64) -> (r: Result<(u64, u64), InvalidByteRangeError>)
        ensures
            r is Ok <==> self.spec_is_valid(n),
            r matches Ok((start, length)) ==> start == self.spec_start(n) && length
                == self.spec_length(n),
    {
        if self.is_valid(n) {
            Ok((self.start(n), self.length(n)))
        } else {
            Err(InvalidByteRangeError { byte_range: *self, size: n })
        }
    }
}

/// A byte range that does not resolve to an interval within the value it was
/// applied to.
#[derive(Clone, Copy, Debug)]
pub struct InvalidByteRangeError {
    /// The offending byte range.
    pub byte_range: ByteRange,
    /// The total size the range was resolved against.
    pub size: u64,
}

/// On every legal range, the resolved length and start sum to the resolved
/// end, and the resolved interval is contained in `[0, n]`.
pub proof fn lemma_byte_range_resolution(range: ByteRange, n: u64)
    requires
        range.spec_is_valid(n),
    ensures
        range.spec_length(n) + range.spec_start(n) == range.spec_end(n),
        range.spec_end(n) <= n,
        0 <= range.spec_start(n) <= range.spec_end(n),
{
}

} // verus!
