//! SSQ chunk-header framing.
//!
//! Every SSQ chunk starts with a 12-byte header. This module reads headers;
//! a chunk length of 0 ends the file.

use crate::ssq::{SsqError, SsqErrorView};
use crate::util::io::{le16, le32, IoError, LeReader};
use crate::util::text::{dec, with_number};
use vstd::prelude::*;

verus! {

/// 12-byte SSQ chunk header.
#[derive(Debug, Clone, Copy, PartialEq, Eq, Structural)]
pub struct ChunkHeader {
    pub length: u32,
    pub ty: u16,
    pub param2: u16,
    pub param3: u16,
    pub param4: u16,
}

impl ChunkHeader {
    pub const HEADER_SIZE: u32 = 12;

    /// Body size (chunk length minus header).
    #[must_use]
    pub fn body_size(&self) -> (n: u32)
        requires
            self.length >= 12,
        ensures
            n == self.length - 12,
    {
        self.length - Self::HEADER_SIZE
    }
}

/// Why a chunk length below the header size is refused.
pub open spec fn short_chunk_reason(length: u32) -> Seq<char> {
    "chunk length "@ + dec(length as nat) + " is smaller than 12-byte header"@
}

/// Why a chunk length that is no multiple of four is refused.
pub open spec fn unaligned_chunk_reason(length: u32) -> Seq<char> {
    "chunk length "@ + dec(length as nat) + " is not dword-aligned"@
}

/// The chunk header that starts at `at`: none at the end of the file, where
/// fewer than four bytes are left or the length is 0.
pub open spec fn header_at(b: Seq<u8>, at: int) -> Result<Option<ChunkHeader>, SsqErrorView> {
    let left = b.len() - at - 4;
    let length = le32(b, at);
    if left < 0 || length == 0 {
        Ok(None)
    } else if length < 12 {
        Err(SsqErrorView::MalformedChunk {
            offset: at as usize,
            reason: short_chunk_reason(length),
        })
    } else if length % 4 != 0 {
        Err(SsqErrorView::MalformedChunk {
            offset: at as usize,
            reason: unaligned_chunk_reason(length),
        })
    } else if left < 8 {
        Err(
            SsqErrorView::Io(
                IoError::UnexpectedEof {
                    offset: (at + 4 + left / 2 * 2) as usize,
                    wanted: 2,
                    remaining: (left % 2) as usize,
                },
            ),
        )
    } else {
        Ok(
            Some(
                ChunkHeader {
                    length,
                    ty: le16(b, at + 4),
                    param2: le16(b, at + 6),
                    param3: le16(b, at + 8),
                    param4: le16(b, at + 10),
                },
            ),
        )
    }
}

/// Where reading the header that starts at `at` leaves the reader.
pub open spec fn header_end(b: Seq<u8>, at: int) -> int {
    let left = b.len() - at - 4;
    let length = le32(b, at);
    if left < 0 {
        at
    } else if length < 12 || length % 4 != 0 {
        at + 4
    } else if left < 8 {
        at + 4 + left / 2 * 2
    } else {
        at + 12
    }
}

/// Read the next chunk header from `reader`, or `None` at end of file.
///
/// The DDR World game engine treats `param2 == 0xFFFF` as a walk-abort
/// sentinel, but this reads past it — legacy SSQs may use that value on
/// real chunks, and skipping them would lose data. The modern writer never
/// emits `0xFFFF`, so output is always DDR World-safe.
///
/// Returns the header's starting byte offset on success for error reporting.
pub fn read_header(reader: &mut LeReader) -> (r: Result<Option<(usize, ChunkHeader)>, SsqError>)
    ensures
        final(reader).bytes() == old(reader).bytes(),
        final(reader).at() == header_end(old(reader).bytes(), old(reader).at() as int),
        match header_at(old(reader).bytes(), old(reader).at() as int) {
            Ok(Some(h)) => r == Ok::<Option<(usize, ChunkHeader)>, SsqError>(
                Some((old(reader).at() as usize, h)),
            ),
            Ok(None) => r == Ok::<Option<(usize, ChunkHeader)>, SsqError>(None),
            Err(e) => r is Err && r->Err_0@ == e,
        },
{
    proof {
        use_type_invariant(&*reader);
    }
    let offset: usize = reader.position();
    if reader.remaining() < 4 {
        return Ok(None);
    }
    let length: u32 = match reader.read_u32() {
        Ok(v) => v,
        Err(e) => return Err(SsqError::Io(e)),
    };
    if length == 0 {
        return Ok(None);
    }
    if length < ChunkHeader::HEADER_SIZE {
        return Err(
            SsqError::MalformedChunk {
                offset,
                reason: with_number(
                    "chunk length ",
                    length as u128,
                    " is smaller than 12-byte header",
                ),
            },
        );
    }
    if length % 4 != 0 {
        return Err(
            SsqError::MalformedChunk {
                offset,
                reason: with_number("chunk length ", length as u128, " is not dword-aligned"),
            },
        );
    }
    let ty: u16 = match reader.read_u16() {
        Ok(v) => v,
        Err(e) => return Err(chunk_io(e)),
    };
    let param2: u16 = match reader.read_u16() {
        Ok(v) => v,
        Err(e) => return Err(chunk_io(e)),
    };
    let param3: u16 = match reader.read_u16() {
        Ok(v) => v,
        Err(e) => return Err(chunk_io(e)),
    };
    let param4: u16 = match reader.read_u16() {
        Ok(v) => v,
        Err(e) => return Err(chunk_io(e)),
    };
    Ok(Some((offset, ChunkHeader { length, ty, param2, param3, param4 })))
}

fn chunk_io(err: IoError) -> (e: SsqError)
    ensures
        e@ == SsqErrorView::Io(err),
{
    SsqError::Io(err)
}

} // verus!
