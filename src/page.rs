//! Reading one Ogg page: the fixed 27-byte header, the segment table, the
//! body, and the check of the page's CRC.
use vstd::prelude::*;

use crate::crc::{crc32, crc_of};
use crate::ogg::{le_u32, read_u32};
use crate::{truncated, Error, IoFault};

verus! {

/// Length of the fixed part of a page header.
pub const HEADER_LEN: usize = 27;

/// Offset of the checksum field within the page header.
pub const CHECKSUM_AT: usize = 22;

/// Header-type flag: the page begins with the rest of a packet.
pub const FLAG_CONTINUED: u8 = 1;

/// A page as the logic sees it: its header fields, its segment table, and
/// where its body lies in the stream.
pub struct PageView {
    pub header_type: u8,
    pub granule_position: u64,
    pub serial: u32,
    pub sequence: u32,
    pub checksum: u32,
    pub segments: Seq<u8>,
    pub body_start: int,
    pub end: int,
}

/// One page read from a stream. The body is not copied: it is the range
/// `body_start..end` of the stream.
pub struct Page {
    pub header_type: u8,
    pub granule_position: u64,
    pub serial: u32,
    pub sequence: u32,
    pub checksum: u32,
    pub segments: Vec<u8>,
    pub body_start: usize,
    pub end: usize,
}

impl View for Page {
    type V = PageView;

    open spec fn view(&self) -> PageView {
        PageView {
            header_type: self.header_type,
            granule_position: self.granule_position,
            serial: self.serial,
            sequence: self.sequence,
            checksum: self.checksum,
            segments: self.segments@,
            body_start: self.body_start as int,
            end: self.end as int,
        }
    }
}

/// Total of the segment lengths in a segment table.
pub open spec fn seg_sum(segs: Seq<u8>) -> nat
    decreases segs.len(),
{
    if segs.len() == 0 {
        0
    } else {
        seg_sum(segs.drop_last()) + segs.last() as nat
    }
}

/// The bytes of a page with its checksum field set to zero, as the CRC is
/// computed over them.
pub open spec fn checksum_input(page: Seq<u8>) -> Seq<u8> {
    Seq::new(
        page.len(),
        |k: int|
            if CHECKSUM_AT <= k < CHECKSUM_AT + 4 {
                0u8
            } else {
                page[k]
            },
    )
}

/// Whether the page header at `pos` opens with "OggS" and version 0.
pub open spec fn header_ok(data: Seq<u8>, pos: int) -> bool {
    &&& data[pos] == 0x4f
    &&& data[pos + 1] == 0x67
    &&& data[pos + 2] == 0x67
    &&& data[pos + 3] == 0x53
    &&& data[pos + 4] == 0
}

/// The little-endian `u64` at `s[i..i + 8]`.
pub open spec fn le_u64(s: Seq<u8>, i: int) -> u64 {
    (le_u32(s, i) as int + le_u32(s, i + 4) as int * 0x1_0000_0000) as u64
}

/// The page that starts at `pos`, or why none can be read there.
pub open spec fn page_at(data: Seq<u8>, pos: int) -> Result<PageView, Error> {
    if pos + HEADER_LEN > data.len() {
        Err(truncated())
    } else if !header_ok(data, pos) {
        Err(Error::MalformedComment)
    } else {
        let n = data[pos + 26] as int;
        let body_start = pos + HEADER_LEN + n;
        if body_start > data.len() {
            Err(truncated())
        } else {
            let segments = data.subrange(pos + HEADER_LEN, body_start);
            let end = body_start + seg_sum(segments);
            if end > data.len() {
                Err(truncated())
            } else if crc_of(checksum_input(data.subrange(pos, end))) != le_u32(
                data,
                pos + CHECKSUM_AT,
            ) {
                Err(Error::MalformedComment)
            } else {
                Ok(
                    PageView {
                        header_type: data[pos + 5],
                        granule_position: le_u64(data, pos + 6),
                        serial: le_u32(data, pos + 14),
                        sequence: le_u32(data, pos + 18),
                        checksum: le_u32(data, pos + CHECKSUM_AT),
                        segments,
                        body_start,
                        end,
                    },
                )
            }
        }
    }
}

/// Each prefix of a segment table sums to no more than the whole table.
pub proof fn lemma_seg_sum_prefix(segs: Seq<u8>, i: int)
    requires
        0 <= i <= segs.len(),
    ensures
        seg_sum(segs.take(i)) <= seg_sum(segs),
    decreases segs.len(),
{
    if i < segs.len() {
        assert(segs.drop_last().take(i) =~= segs.take(i));
        lemma_seg_sum_prefix(segs.drop_last(), i);
    } else {
        assert(segs.take(i) =~= segs);
    }
}

/// Reads the page that starts at `pos`; `None` when the stream ends exactly
/// there.
pub fn next_page(data: &[u8], pos: usize) -> (r: Result<Option<Page>, Error>)
    requires
        pos <= data@.len(),
    ensures
        pos == data@.len() ==> r == Ok::<Option<Page>, Error>(None),
        pos < data@.len() ==> match page_at(data@, pos as int) {
            Ok(pv) => r matches Ok(Some(p)) && p@ == pv,
            Err(e) => r == Err::<Option<Page>, Error>(e),
        },
{
    if pos == data.len() {
        return Ok(None);
    }
    if data.len() - pos < HEADER_LEN {
        return Err(Error::IoFailure(IoFault::UnexpectedEnd));
    }
    if !(data[pos] == 0x4f && data[pos + 1] == 0x67 && data[pos + 2] == 0x67 && data[pos + 3]
        == 0x53 && data[pos + 4] == 0) {
        return Err(Error::MalformedComment);
    }
    let header_type = data[pos + 5];
    let mut at: usize = pos + 6;
    let lo = read_u32(data, &mut at);
    let hi = read_u32(data, &mut at);
    let serial = read_u32(data, &mut at);
    let sequence = read_u32(data, &mut at);
    let checksum = read_u32(data, &mut at);
    let (lo, hi, serial, sequence, checksum) = match (lo, hi, serial, sequence, checksum) {
        (Ok(a), Ok(b), Ok(c), Ok(d), Ok(e)) => (a, b, c, d, e),
        _ => {
            return Err(Error::IoFailure(IoFault::UnexpectedEnd));
        },
    };
    let granule_position: u64 = lo as u64 + hi as u64 * 0x1_0000_0000;
    let n = data[pos + 26] as usize;
    let body_start = pos + HEADER_LEN;
    if data.len() - body_start < n {
        return Err(Error::IoFailure(IoFault::UnexpectedEnd));
    }
    let body_start = body_start + n;
    let mut segments: Vec<u8> = Vec::new();
    let mut body_len: usize = 0;
    let mut i: usize = 0;
    while i < n
        invariant
            n == data@[pos + 26] as int,
            body_start == pos + HEADER_LEN + n,
            body_start <= data@.len(),
            i <= n,
            segments@ == data@.subrange(pos + HEADER_LEN, pos + HEADER_LEN + i),
            body_len == seg_sum(segments@),
            body_len <= 255 * i,
        decreases n - i,
    {
        let s = data[pos + HEADER_LEN + i];
        proof {
            assert(segments@.push(s).drop_last() =~= segments@);
        }
        segments.push(s);
        body_len = body_len + s as usize;
        i = i + 1;
        proof {
            assert(segments@ =~= data@.subrange(pos + HEADER_LEN, pos + HEADER_LEN + i));
        }
    }
    if data.len() - body_start < body_len {
        return Err(Error::IoFailure(IoFault::UnexpectedEnd));
    }
    let end = body_start + body_len;
    let mut copy: Vec<u8> = Vec::new();
    let mut k: usize = pos;
    while k < end
        invariant
            pos <= k <= end <= data@.len(),
            copy@ =~= checksum_input(data@.subrange(pos as int, end as int)).take(k - pos),
        decreases end - k,
    {
        let b = if k - pos >= CHECKSUM_AT && k - pos < CHECKSUM_AT + 4 {
            0u8
        } else {
            data[k]
        };
        copy.push(b);
        k = k + 1;
    }
    proof {
        assert(copy@ =~= checksum_input(data@.subrange(pos as int, end as int)));
    }
    if crc32(copy.as_slice()) != checksum {
        return Err(Error::MalformedComment);
    }
    Ok(
        Some(
            Page {
                header_type,
                granule_position,
                serial,
                sequence,
                checksum,
                segments,
                body_start,
                end,
            },
        ),
    )
}

} // verus!
