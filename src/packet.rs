//! Joining page segments into packets, and finding the Vorbis comment header
//! among them.
//!
//! A segment of length 255 continues its packet into the next segment, maybe
//! on the next page; a shorter one ends it. The search stops at the first
//! complete packet that carries the comment-header signature, so nothing
//! after it is read.
use vstd::prelude::*;

use crate::page::{lemma_seg_sum_prefix, next_page, page_at, seg_sum, Page, PageView, FLAG_CONTINUED};
use crate::{truncated, Error, IoFault};

verus! {

/// Whether a packet opens with the comment-header signature: the byte 3,
/// then "vorbis".
pub open spec fn is_comment_header(p: Seq<u8>) -> bool {
    &&& p.len() >= 7
    &&& p[0] == 3
    &&& p[1] == 0x76
    &&& p[2] == 0x6f
    &&& p[3] == 0x72
    &&& p[4] == 0x62
    &&& p[5] == 0x69
    &&& p[6] == 0x73
}

/// Where the segments of one page leave the search: the comment header was
/// completed, or these bytes of an unfinished packet carry over.
pub enum Feed {
    Found(Seq<u8>),
    Pending(Seq<u8>),
}

/// Offset in the stream of segment `i` of a page.
pub open spec fn segment_start(pg: PageView, i: int) -> int {
    pg.body_start + seg_sum(pg.segments.take(i))
}

/// Feeds segments `i..` of page `pg` to the search, starting with the
/// unfinished packet `acc`. Complete packets that are not the comment header
/// are dropped.
pub open spec fn feed_page(data: Seq<u8>, pg: PageView, i: int, acc: Seq<u8>) -> Feed
    decreases pg.segments.len() - i,
{
    if i < 0 || i >= pg.segments.len() {
        Feed::Pending(acc)
    } else {
        let start = segment_start(pg, i);
        let len = pg.segments[i];
        let joined = acc + data.subrange(start, start + len);
        if len < 255 {
            if is_comment_header(joined) {
                Feed::Found(joined)
            } else {
                feed_page(data, pg, i + 1, Seq::empty())
            }
        } else {
            feed_page(data, pg, i + 1, joined)
        }
    }
}

/// The comment-header packet of the pages from `pos` on, where `acc` is the
/// unfinished packet that the pages before left over.
pub open spec fn scan_pages(data: Seq<u8>, pos: int, acc: Seq<u8>) -> Result<Seq<u8>, Error>
    decreases data.len() - pos,
{
    if pos < 0 || pos >= data.len() {
        if acc.len() == 0 {
            Err(Error::NoCommentsFound)
        } else {
            Err(truncated())
        }
    } else {
        match page_at(data, pos) {
            Err(e) => Err(e),
            Ok(pg) => {
                if acc.len() > 0 && pg.header_type & FLAG_CONTINUED == 0 {
                    Err(Error::MalformedComment)
                } else {
                    match feed_page(data, pg, 0, acc) {
                        Feed::Found(p) => Ok(p),
                        Feed::Pending(a) => scan_pages(data, pg.end, a),
                    }
                }
            },
        }
    }
}

/// The comment-header packet of a whole stream.
pub open spec fn comment_packet(data: Seq<u8>) -> Result<Seq<u8>, Error> {
    scan_pages(data, 0, Seq::empty())
}

/// Whether `p` opens with the comment-header signature.
pub fn has_comment_signature(p: &[u8]) -> (r: bool)
    ensures
        r == is_comment_header(p@),
{
    p.len() >= 7 && p[0] == 3 && p[1] == 0x76 && p[2] == 0x6f && p[3] == 0x72 && p[4] == 0x62
        && p[5] == 0x69 && p[6] == 0x73
}

/// Feeds the segments of page `pg`, read at `pos`, into the unfinished packet
/// `acc`. Returns true when that completes the comment header, which is then
/// in `acc`; otherwise `acc` holds what carries over to the next page.
fn feed(data: &[u8], pos: usize, pg: &Page, acc: &mut Vec<u8>) -> (found: bool)
    requires
        page_at(data@, pos as int) == Ok::<PageView, Error>(pg@),
    ensures
        found ==> feed_page(data@, pg@, 0, old(acc)@) == Feed::Found(final(acc)@),
        !found ==> feed_page(data@, pg@, 0, old(acc)@) == Feed::Pending(final(acc)@),
{
    let ghost target = feed_page(data@, pg@, 0, old(acc)@);
    let n = pg.segments.len();
    let mut i: usize = 0;
    let mut off: usize = pg.body_start;
    proof {
        assert(pg@.segments.take(0) =~= Seq::<u8>::empty());
    }
    while i < n
        invariant
            page_at(data@, pos as int) == Ok::<PageView, Error>(pg@),
            n == pg.segments@.len(),
            i <= n,
            off == segment_start(pg@, i as int),
            feed_page(data@, pg@, i as int, acc@) == target,
            target == feed_page(data@, pg@, 0, old(acc)@),
        decreases n - i,
    {
        let len = pg.segments[i];
        proof {
            assert(pg@.segments.take(i + 1).drop_last() =~= pg@.segments.take(i as int));
            lemma_seg_sum_prefix(pg@.segments, i + 1);
        }
        let ghost before = acc@;
        let stop = off + len as usize;
        let mut k: usize = off;
        while k < stop
            invariant
                off <= k <= stop <= data@.len(),
                acc@ == before + data@.subrange(off as int, k as int),
            decreases stop - k,
        {
            acc.push(data[k]);
            k = k + 1;
            proof {
                assert(acc@ =~= before + data@.subrange(off as int, k as int));
            }
        }
        proof {
            assert(acc@ == before + data@.subrange(
                segment_start(pg@, i as int),
                segment_start(pg@, i as int) + len,
            ));
            assert(len < 255 && is_comment_header(acc@) ==> target == Feed::Found(acc@));
        }
        off = stop;
        i = i + 1;
        if len < 255 {
            if has_comment_signature(acc.as_slice()) {
                return true;
            }
            *acc = Vec::new();
        }
    }
    false
}

/// Reads pages from the start of `data` and returns the first complete packet
/// that carries the comment-header signature.
pub fn find_comment_packet(data: &[u8]) -> (r: Result<Vec<u8>, Error>)
    ensures
        match comment_packet(data@) {
            Ok(p) => r matches Ok(v) && v@ == p,
            Err(e) => r == Err::<Vec<u8>, Error>(e),
        },
{
    let mut pos: usize = 0;
    let mut acc: Vec<u8> = Vec::new();
    proof {
        assert(acc@ =~= Seq::<u8>::empty());
    }
    loop
        invariant
            pos <= data@.len(),
            scan_pages(data@, pos as int, acc@) == comment_packet(data@),
        decreases data@.len() - pos,
    {
        match next_page(data, pos) {
            Err(e) => {
                return Err(e);
            },
            Ok(None) => {
                if acc.len() == 0 {
                    return Err(Error::NoCommentsFound);
                } else {
                    return Err(Error::IoFailure(IoFault::UnexpectedEnd));
                }
            },
            Ok(Some(pg)) => {
                if acc.len() > 0 && pg.header_type & FLAG_CONTINUED == 0 {
                    return Err(Error::MalformedComment);
                }
                if feed(data, pos, &pg, &mut acc) {
                    return Ok(acc);
                }
                pos = pg.end;
            },
        }
    }
}

} // verus!
