//! How a writer lays out comment headers and pages, stated as spec
//! functions, and proofs that the reader recovers what was written.
use vstd::prelude::*;
use vstd::utf8::{
    char_is_scalar, encode_scalar, encode_utf8, encode_utf8_decode_utf8, encode_utf8_valid_utf8,
    has_width_1_encoding,
};

use crate::comment_map;
use crate::crc::crc_of;
use crate::ogg::{
    decode_entries, decode_header, entry_of, eq_index_from, le_u32, parse_stream, Entry, EQUALS,
};
use crate::packet::{comment_packet, feed_page, is_comment_header, scan_pages, Feed};
use crate::page::{checksum_input, page_at, seg_sum, PageView};

verus! {

/// The four little-endian bytes of `n`.
pub open spec fn le_bytes(n: u32) -> Seq<u8> {
    seq![
        (n % 0x100) as u8,
        (n / 0x100 % 0x100) as u8,
        (n / 0x1_0000 % 0x100) as u8,
        (n / 0x100_0000 % 0x100) as u8,
    ]
}

/// Reading four bytes written by `le_bytes` gives the number back.
pub proof fn lemma_le_round_trip(s: Seq<u8>, i: int, n: u32)
    requires
        0 <= i,
        i + 4 <= s.len(),
        s.subrange(i, i + 4) == le_bytes(n),
    ensures
        le_u32(s, i) == n,
{
    assert(s[i] == le_bytes(n)[0]);
    assert(s[i + 1] == le_bytes(n)[1]);
    assert(s[i + 2] == le_bytes(n)[2]);
    assert(s[i + 3] == le_bytes(n)[3]);
}

/// Encoding a concatenation encodes each part.
pub proof fn lemma_encode_concat(a: Seq<char>, b: Seq<char>)
    ensures
        encode_utf8(a + b) == encode_utf8(a) + encode_utf8(b),
    decreases a.len(),
{
    if a.len() == 0 {
        assert(a + b =~= b);
        assert(encode_utf8(a) =~= Seq::<u8>::empty());
        assert(encode_utf8(a) + encode_utf8(b) =~= encode_utf8(b));
    } else {
        assert((a + b).drop_first() =~= a.drop_first() + b);
        assert((a + b)[0] == a[0]);
        lemma_encode_concat(a.drop_first(), b);
        assert(encode_utf8(a + b) =~= encode_scalar(a[0] as u32) + (encode_utf8(a.drop_first())
            + encode_utf8(b)));
    }
}

/// Whether `=` occurs in a string.
pub open spec fn has_equals(s: Seq<char>) -> bool {
    exists|i: int| 0 <= i < s.len() && s[i] == '='
}

/// A character other than `=` encodes to bytes none of which is `=`.
proof fn lemma_scalar_avoids_equals(c: char)
    requires
        c != '=',
    ensures
        forall|j: int| 0 <= j < encode_scalar(c as u32).len() ==> #[trigger] encode_scalar(c as u32)[j] != EQUALS,
{
    char_is_scalar(c);
    let v = c as u32;
    if has_width_1_encoding(v) {
        assert(v & 0x7F == v && v != 0x3d ==> ((v & 0x7F) as u8) != 0x3d) by (bit_vector);
        assert(v <= 0x7F ==> v & 0x7F == v) by (bit_vector);
    } else {
        assert(forall|x: u32| (0xC0u8 | ((x >> 6u32) & 0x1Fu32) as u8) != 0x3du8) by (bit_vector);
        assert(forall|x: u32| (0xE0u8 | ((x >> 12u32) & 0x0Fu32) as u8) != 0x3du8) by (bit_vector);
        assert(forall|x: u32| (0xF0u8 | ((x >> 18u32) & 0x7u32) as u8) != 0x3du8) by (bit_vector);
        assert(forall|x: u32| (0x80u8 | (x & 0x3Fu32) as u8) != 0x3du8) by (bit_vector);
        assert(forall|x: u32| (0x80u8 | ((x >> 6u32) & 0x3Fu32) as u8) != 0x3du8) by (bit_vector);
        assert(forall|x: u32| (0x80u8 | ((x >> 12u32) & 0x3Fu32) as u8) != 0x3du8) by (bit_vector);
    }
}

/// A string without `=` encodes to bytes without `=`.
pub proof fn lemma_encode_avoids_equals(s: Seq<char>)
    requires
        !has_equals(s),
    ensures
        forall|j: int| 0 <= j < encode_utf8(s).len() ==> encode_utf8(s)[j] != EQUALS,
    decreases s.len(),
{
    if s.len() > 0 {
        assert(s[0] != '=');
        lemma_scalar_avoids_equals(s[0]);
        assert(!has_equals(s.drop_first())) by {
            if has_equals(s.drop_first()) {
                let i = choose|i: int| 0 <= i < s.drop_first().len() && s.drop_first()[i] == '=';
                assert(s[i + 1] == '=');
            }
        }
        lemma_encode_avoids_equals(s.drop_first());
        let a = encode_scalar(s[0] as u32);
        let b = encode_utf8(s.drop_first());
        assert forall|j: int| 0 <= j < encode_utf8(s).len() implies encode_utf8(s)[j] != EQUALS by {
            if j < a.len() {
                assert(encode_utf8(s)[j] == a[j]);
            } else {
                assert(encode_utf8(s)[j] == b[j - a.len()]);
            }
        }
    }
}

/// The first `=` at or after `i` is at `p` when the bytes between hold none.
proof fn lemma_eq_index(c: Seq<u8>, i: int, p: int)
    requires
        0 <= i <= p < c.len(),
        c[p] == EQUALS,
        forall|j: int| i <= j < p ==> c[j] != EQUALS,
    ensures
        eq_index_from(c, i) == p,
    decreases p - i,
{
    if i < p {
        lemma_eq_index(c, i + 1, p);
    }
}

/// The string of one comment: its key, `=`, its value.
pub open spec fn comment_text(e: Entry) -> Seq<char> {
    e.0 + seq!['='] + e.1
}

/// A comment written as `KEY=value` decodes to its key and value, when the
/// key holds no `=`.
pub proof fn lemma_entry_round_trip(e: Entry)
    requires
        !has_equals(e.0),
    ensures
        entry_of(encode_utf8(comment_text(e))) == Ok::<Entry, crate::Error>(e),
{
    let k = encode_utf8(e.0);
    let v = encode_utf8(e.1);
    lemma_encode_concat(e.0 + seq!['='], e.1);
    lemma_encode_concat(e.0, seq!['=']);
    assert(('=' as u32) == 0x3d);
    assert((0x3du32 & 0x7Fu32) as u8 == 0x3du8) by (bit_vector);
    assert(encode_utf8(seq!['=']) =~= seq![EQUALS]) by {
        let eq = seq!['='];
        assert(eq.drop_first() =~= Seq::<char>::empty());
        assert(encode_utf8(eq.drop_first()) =~= Seq::<u8>::empty());
        assert(has_width_1_encoding(eq[0] as u32));
        assert(encode_scalar(eq[0] as u32) =~= seq![EQUALS]);
        assert(encode_utf8(eq) =~= encode_scalar(eq[0] as u32) + encode_utf8(eq.drop_first()));
    }
    let c = encode_utf8(comment_text(e));
    assert(c =~= k + seq![EQUALS] + v);
    lemma_encode_avoids_equals(e.0);
    lemma_eq_index(c, 0, k.len() as int);
    encode_utf8_valid_utf8(comment_text(e));
    assert(c.take(k.len() as int) =~= k);
    assert(c.skip(k.len() as int + 1) =~= v);
    encode_utf8_decode_utf8(e.0);
    encode_utf8_decode_utf8(e.1);
}

/// A length-prefixed UTF-8 string.
pub open spec fn encoded_string(s: Seq<char>) -> Seq<u8> {
    le_bytes(encode_utf8(s).len() as u32) + encode_utf8(s)
}

/// The comments, each as a length-prefixed `KEY=value` string.
pub open spec fn encoded_entries(es: Seq<Entry>) -> Seq<u8>
    decreases es.len(),
{
    if es.len() == 0 {
        Seq::empty()
    } else {
        encoded_string(comment_text(es[0])) + encoded_entries(es.drop_first())
    }
}

/// The comment-header signature: the byte 3, then "vorbis".
pub open spec fn signature() -> Seq<u8> {
    seq![3u8, 0x76u8, 0x6fu8, 0x72u8, 0x62u8, 0x69u8, 0x73u8]
}

/// A comment header as a writer lays it out, framing byte included.
pub open spec fn encoded_header(vendor: Seq<char>, es: Seq<Entry>) -> Seq<u8> {
    signature() + encoded_string(vendor) + le_bytes(es.len() as u32) + encoded_entries(es)
        + seq![1u8]
}

/// Whether a comment can be written so that reading gives it back: its key
/// holds no `=` and its text has a 32-bit length.
pub open spec fn writable_entry(e: Entry) -> bool {
    &&& !has_equals(e.0)
    &&& encode_utf8(comment_text(e)).len() <= u32::MAX
}

/// Whether a vendor string and comments can be written as a comment header.
pub open spec fn writable(vendor: Seq<char>, es: Seq<Entry>) -> bool {
    &&& encode_utf8(vendor).len() <= u32::MAX
    &&& es.len() <= u32::MAX
    &&& forall|i: int| 0 <= i < es.len() ==> writable_entry(#[trigger] es[i])
}

/// Written comments found at `pos` of a packet decode to themselves, after
/// the comments `acc` decoded before them.
#[verifier::spinoff_prover]
proof fn lemma_entries_round_trip(p: Seq<u8>, pos: int, es: Seq<Entry>, acc: Seq<Entry>)
    requires
        0 <= pos,
        pos + encoded_entries(es).len() <= p.len(),
        p.subrange(pos, pos + encoded_entries(es).len()) == encoded_entries(es),
        forall|i: int| 0 <= i < es.len() ==> writable_entry(#[trigger] es[i]),
    ensures
        decode_entries(p, pos, es.len(), acc) == Ok::<Seq<Entry>, crate::Error>(acc + es),
    decreases es.len(),
{
    if es.len() == 0 {
        assert(acc + es =~= acc);
    } else {
        let e = es[0];
        assert(writable_entry(es[0]));
        let c = encode_utf8(comment_text(e));
        let rest = encoded_entries(es.drop_first());
        let all = encoded_entries(es);
        let n = c.len() as int;
        assert(all =~= le_bytes(n as u32) + c + rest);
        let q = p.subrange(pos, pos + all.len());
        assert(p.subrange(pos, pos + 4) =~= q.subrange(0, 4));
        assert(all.subrange(0, 4) =~= le_bytes(n as u32));
        lemma_le_round_trip(p, pos, n as u32);
        assert(p.subrange(pos + 4, pos + 4 + n) =~= q.subrange(4, 4 + n));
        assert(all.subrange(4, 4 + n) =~= c);
        assert(p.subrange(pos + 4 + n, pos + 4 + n + rest.len()) =~= q.subrange(
            4 + n,
            all.len() as int,
        ));
        assert(all.subrange(4 + n, all.len() as int) =~= rest);
        lemma_entry_round_trip(e);
        assert forall|i: int| 0 <= i < es.drop_first().len() implies writable_entry(
            #[trigger] es.drop_first()[i],
        ) by {
            assert(es.drop_first()[i] == es[i + 1]);
        }
        lemma_entries_round_trip(p, pos + 4 + n, es.drop_first(), acc.push(e));
        assert(acc.push(e) + es.drop_first() =~= acc + es);
    }
}

/// A comment header laid out by a writer decodes to the vendor string and
/// the comments that were written, in their order.
pub proof fn lemma_header_round_trip(vendor: Seq<char>, es: Seq<Entry>)
    requires
        writable(vendor, es),
    ensures
        decode_header(encoded_header(vendor, es)) == Ok::<(Seq<char>, Seq<Entry>), crate::Error>(
            (vendor, es),
        ),
{
    let p = encoded_header(vendor, es);
    let v = encode_utf8(vendor);
    let n = v.len() as int;
    let body = encoded_entries(es);
    assert(p =~= signature() + le_bytes(n as u32) + v + le_bytes(es.len() as u32) + body + seq![
        1u8,
    ]);
    assert(p.subrange(7, 11) =~= le_bytes(n as u32));
    lemma_le_round_trip(p, 7, n as u32);
    assert(p.subrange(11, 11 + n) =~= v);
    encode_utf8_valid_utf8(vendor);
    encode_utf8_decode_utf8(vendor);
    assert(p.subrange(11 + n, 15 + n) =~= le_bytes(es.len() as u32));
    lemma_le_round_trip(p, 11 + n, es.len() as u32);
    assert(p.subrange(15 + n, 15 + n + body.len()) =~= body);
    lemma_entries_round_trip(p, 15 + n, es, Seq::empty());
    assert(Seq::<Entry>::empty() + es =~= es);
}

/// The segment table of one packet of `len` bytes: as many 255s as fit,
/// then the rest, which is below 255 and may be zero.
pub open spec fn lacing(len: nat) -> Seq<u8> {
    Seq::new(len / 255, |i: int| 255u8) + seq![(len % 255) as u8]
}

/// The 27-byte fixed header of a page.
pub open spec fn page_header(
    flags: u8,
    granule: u64,
    serial: u32,
    sequence: u32,
    checksum: u32,
    nsegs: u8,
) -> Seq<u8> {
    seq![0x4fu8, 0x67u8, 0x67u8, 0x53u8, 0u8, flags] + le_bytes((granule % 0x1_0000_0000) as u32)
        + le_bytes((granule / 0x1_0000_0000) as u32) + le_bytes(serial) + le_bytes(sequence)
        + le_bytes(checksum) + seq![nsegs]
}

/// A page as a writer lays it out, with its checksum computed over the page
/// with a zero checksum field.
#[verifier::opaque]
pub open spec fn page_image(
    flags: u8,
    granule: u64,
    serial: u32,
    sequence: u32,
    segs: Seq<u8>,
    body: Seq<u8>,
) -> Seq<u8> {
    let unsigned = page_header(flags, granule, serial, sequence, 0, segs.len() as u8) + segs
        + body;
    page_header(flags, granule, serial, sequence, crc_of(unsigned), segs.len() as u8) + segs
        + body
}

/// A stream of one page that holds the one packet `packet`.
pub open spec fn single_page_stream(
    flags: u8,
    granule: u64,
    serial: u32,
    sequence: u32,
    packet: Seq<u8>,
) -> Seq<u8> {
    page_image(flags, granule, serial, sequence, lacing(packet.len()), packet)
}

/// A page laid out by a writer, found at `pos` of a stream, reads back with
/// its flags, its segment table and its body.
#[verifier::spinoff_prover]
pub proof fn lemma_page_round_trip(
    data: Seq<u8>,
    pos: int,
    flags: u8,
    granule: u64,
    serial: u32,
    sequence: u32,
    segs: Seq<u8>,
    body: Seq<u8>,
)
    requires
        segs.len() <= 255,
        seg_sum(segs) == body.len(),
        0 <= pos,
        pos + page_image(flags, granule, serial, sequence, segs, body).len() <= data.len(),
        data.subrange(pos, pos + page_image(flags, granule, serial, sequence, segs, body).len())
            == page_image(flags, granule, serial, sequence, segs, body),
    ensures
        page_at(data, pos) matches Ok(pg) && pg.header_type == flags && pg.segments == segs
            && pg.body_start == pos + 27 + segs.len() && pg.end == pos + page_image(
            flags,
            granule,
            serial,
            sequence,
            segs,
            body,
        ).len() && data.subrange(pg.body_start, pg.end) == body,
{
    reveal(page_image);
    let n = segs.len();
    let unsigned = page_header(flags, granule, serial, sequence, 0, n as u8) + segs + body;
    let c = crc_of(unsigned);
    let img = page_image(flags, granule, serial, sequence, segs, body);
    let h = page_header(flags, granule, serial, sequence, c, n as u8);
    let end = pos + img.len();
    assert(h.len() == 27);
    assert(img =~= h + segs + body);
    assert(data.subrange(pos, end)[26] == img[26]);
    assert(data[pos + 26] == n as u8);
    assert(data[pos] == img[0] && data[pos + 1] == img[1] && data[pos + 2] == img[2]) by {
        assert(data.subrange(pos, end)[0] == img[0]);
        assert(data.subrange(pos, end)[1] == img[1]);
        assert(data.subrange(pos, end)[2] == img[2]);
    }
    assert(data[pos + 3] == img[3] && data[pos + 4] == img[4] && data[pos + 5] == img[5]) by {
        assert(data.subrange(pos, end)[3] == img[3]);
        assert(data.subrange(pos, end)[4] == img[4]);
        assert(data.subrange(pos, end)[5] == img[5]);
    }
    assert(data.subrange(pos + 27, pos + 27 + n as int) =~= img.subrange(27, 27 + n as int));
    assert(img.subrange(27, 27 + n as int) =~= segs);
    assert(data.subrange(pos + 22, pos + 26) =~= img.subrange(22, 26));
    assert(img.subrange(22, 26) =~= le_bytes(c));
    lemma_le_round_trip(data, pos + 22, c);
    assert(checksum_input(img) =~= unsigned);
    assert(data.subrange(pos + 27 + n, end) =~= data.subrange(pos, end).subrange(27 + n as int, img.len() as int));
    assert(img.subrange(27 + n as int, img.len() as int) =~= body);
}

/// `t` full segments.
pub open spec fn full_segments(t: nat) -> Seq<u8> {
    Seq::new(t, |i: int| 255u8)
}

/// A run of full segments at the front of a table holds 255 bytes apiece.
proof fn lemma_full_prefix(segs: Seq<u8>, i: int)
    requires
        0 <= i <= segs.len(),
        forall|j: int| 0 <= j < i ==> segs[j] == 255,
    ensures
        seg_sum(segs.take(i)) == 255 * i,
    decreases i,
{
    if i == 0 {
        assert(segs.take(0) =~= Seq::<u8>::empty());
    } else {
        assert(segs.take(i).drop_last() =~= segs.take(i - 1));
        lemma_full_prefix(segs, i - 1);
    }
}

/// A table of full segments and a last, shorter one sums as expected.
proof fn lemma_table_sum(t: nat, r: u8)
    ensures
        seg_sum(full_segments(t) + seq![r]) == 255 * t + r,
{
    let segs = full_segments(t) + seq![r];
    lemma_full_prefix(segs, t as int);
    assert(segs.drop_last() =~= segs.take(t as int));
}

/// Feeding a page of full segments extends the unfinished packet by the
/// whole body and completes nothing.
proof fn lemma_feed_full(data: Seq<u8>, pg: PageView, acc: Seq<u8>, i: int)
    requires
        forall|j: int| 0 <= j < pg.segments.len() ==> pg.segments[j] == 255,
        0 <= pg.body_start,
        pg.body_start + 255 * pg.segments.len() <= data.len(),
        0 <= i <= pg.segments.len(),
    ensures
        ({
            let body = data.subrange(pg.body_start, pg.body_start + 255 * pg.segments.len());
            feed_page(data, pg, i, acc + body.take(255 * i)) == Feed::Pending(acc + body)
        }),
    decreases pg.segments.len() - i,
{
    let bs = pg.body_start;
    let t = pg.segments.len() as int;
    let body = data.subrange(bs, bs + 255 * t);
    lemma_full_prefix(pg.segments, i);
    let start = bs + 255 * i;
    if i < t {
        assert(acc + body.take(255 * i) + data.subrange(start, start + 255) =~= acc + body.take(
            255 * (i + 1),
        ));
        lemma_feed_full(data, pg, acc, i + 1);
    } else {
        assert(body.take(255 * i) =~= body);
    }
}

/// Feeding the page that ends a packet completes it: the search takes it
/// when it carries the signature and drops it otherwise.
proof fn lemma_feed_last(data: Seq<u8>, pg: PageView, acc: Seq<u8>, t: nat, r: u8, i: int)
    requires
        pg.segments == full_segments(t) + seq![r],
        r < 255,
        0 <= pg.body_start,
        pg.body_start + 255 * t + r <= data.len(),
        0 <= i <= t,
    ensures
        ({
            let body = data.subrange(pg.body_start, pg.body_start + 255 * t + r);
            feed_page(data, pg, i, acc + body.take(255 * i)) == if is_comment_header(acc + body) {
                Feed::Found(acc + body)
            } else {
                Feed::Pending(Seq::empty())
            }
        }),
    decreases t - i,
{
    let bs = pg.body_start;
    let body = data.subrange(bs, bs + 255 * t + r);
    lemma_full_prefix(pg.segments, i);
    let start = bs + 255 * i;
    if i < t {
        assert(acc + body.take(255 * i) + data.subrange(start, start + 255) =~= acc + body.take(
            255 * (i + 1),
        ));
        lemma_feed_last(data, pg, acc, t, r, i + 1);
    } else {
        assert(acc + body.take(255 * i) + data.subrange(start, start + r) =~= acc + body);
        assert(feed_page(data, pg, i + 1, Seq::empty()) == Feed::Pending(Seq::<u8>::empty()));
    }
}

/// A stream of pages that hold the one packet `body`, whose segment table is
/// `segs`, at most `budget` segments to a page. Every page after the first
/// is marked as continuing the packet.
pub open spec fn spread(
    segs: Seq<u8>,
    body: Seq<u8>,
    budget: nat,
    flags: u8,
    serial: u32,
    sequence: nat,
) -> Seq<u8>
    decreases segs.len(),
{
    if budget == 0 || segs.len() <= budget {
        page_image(flags, 0, serial, sequence as u32, segs, body)
    } else {
        page_image(flags, 0, serial, sequence as u32, segs.take(budget as int), body.take(255 * budget as int))
            + spread(
            segs.skip(budget as int),
            body.skip(255 * budget as int),
            budget,
            crate::page::FLAG_CONTINUED,
            serial,
            sequence + 1,
        )
    }
}

/// The one packet `packet` written over pages of at most `budget` segments.
pub open spec fn multi_page_stream(packet: Seq<u8>, budget: nat, serial: u32) -> Seq<u8> {
    spread(lacing(packet.len()), packet, budget, 2, serial, 0)
}

/// The search over the pages of a spread packet, from the page at `pos`
/// on, with `acc` carried over from the pages before.
#[verifier::spinoff_prover]
proof fn lemma_spread_search(
    data: Seq<u8>,
    pos: int,
    t: nat,
    r: u8,
    body: Seq<u8>,
    budget: nat,
    flags: u8,
    serial: u32,
    sequence: nat,
    acc: Seq<u8>,
)
    requires
        1 <= budget <= 255,
        r < 255,
        body.len() == 255 * t + r,
        0 <= pos <= data.len(),
        data.subrange(pos, data.len() as int) == spread(
            full_segments(t) + seq![r],
            body,
            budget,
            flags,
            serial,
            sequence,
        ),
        acc.len() > 0 ==> flags & 1 == 1,
    ensures
        scan_pages(data, pos, acc) == if is_comment_header(acc + body) {
            Ok::<Seq<u8>, crate::Error>(acc + body)
        } else {
            Err(crate::Error::NoCommentsFound)
        },
    decreases t,
{
    let segs = full_segments(t) + seq![r];
    if segs.len() <= budget {
        let img = page_image(flags, 0, serial, sequence as u32, segs, body);
        lemma_table_sum(t, r);
        assert(data.subrange(pos, pos + img.len()) =~= img);
        lemma_page_round_trip(data, pos, flags, 0, serial, sequence as u32, segs, body);
        let pg = page_at(data, pos)->Ok_0;
        assert(acc + body.take(0) =~= acc);
        lemma_feed_last(data, pg, acc, t, r, 0);
        assert(scan_pages(data, pg.end, Seq::empty()) == Err::<Seq<u8>, crate::Error>(
            crate::Error::NoCommentsFound,
        ));
    } else {
        let b = budget as int;
        let first = segs.take(b);
        let head = body.take(255 * b);
        let img = page_image(flags, 0, serial, sequence as u32, first, head);
        let rest = spread(segs.skip(b), body.skip(255 * b), budget, 1, serial, sequence + 1);
        assert(forall|j: int| 0 <= j < first.len() ==> first[j] == 255);
        lemma_full_prefix(first, b);
        assert(first.take(b) =~= first);
        let d = data.subrange(pos, data.len() as int);
        assert(d =~= img + rest);
        assert(data.subrange(pos, pos + img.len()) =~= d.subrange(0, img.len() as int));
        assert(d.subrange(0, img.len() as int) =~= img);
        lemma_page_round_trip(data, pos, flags, 0, serial, sequence as u32, first, head);
        let pg = page_at(data, pos)->Ok_0;
        assert(acc + head.take(0) =~= acc);
        lemma_feed_full(data, pg, acc, 0);
        let next = pos + img.len();
        assert(data.subrange(next, data.len() as int) =~= d.subrange(
            img.len() as int,
            d.len() as int,
        ));
        assert(d.subrange(img.len() as int, d.len() as int) =~= rest);
        assert(segs.skip(b) =~= full_segments((t - b) as nat) + seq![r]);
        assert((1u8 & 1u8) == 1u8) by (bit_vector);
        lemma_spread_search(
            data,
            next,
            (t - b) as nat,
            r,
            body.skip(255 * b),
            budget,
            1,
            serial,
            sequence + 1,
            acc + head,
        );
        assert(acc + head + body.skip(255 * b) =~= acc + body);
    }
}

/// The comment-header search over a packet written across pages of at most
/// `budget` segments finds the packet exactly when it carries the
/// signature, whatever its length.
pub proof fn lemma_multi_page_search(packet: Seq<u8>, budget: nat, serial: u32)
    requires
        1 <= budget <= 255,
    ensures
        comment_packet(multi_page_stream(packet, budget, serial)) == if is_comment_header(packet) {
            Ok::<Seq<u8>, crate::Error>(packet)
        } else {
            Err(crate::Error::NoCommentsFound)
        },
{
    let len = packet.len();
    let t = len / 255;
    let r = (len % 255) as u8;
    let data = multi_page_stream(packet, budget, serial);
    assert(lacing(len) =~= full_segments(t) + seq![r]);
    assert(data.subrange(0, data.len() as int) =~= data);
    assert(Seq::<u8>::empty() + packet =~= packet);
    lemma_spread_search(data, 0, t, r, packet, budget, 2, serial, 0, Seq::empty());
}

/// A packet written across pages of at most `budget` segments reads as the
/// same packet written on one page: the page boundaries do not show.
pub proof fn lemma_pages_do_not_show(packet: Seq<u8>, budget: nat, serial: u32)
    requires
        1 <= budget <= 255,
        packet.len() < 255 * 255,
    ensures
        parse_stream(multi_page_stream(packet, budget, serial)) == parse_stream(
            single_page_stream(2, 0, serial, 0, packet),
        ),
{
    lemma_multi_page_search(packet, budget, serial);
    lemma_single_page_search(2, 0, serial, 0, packet);
}

/// The comment-header search over a one-page, one-packet stream finds the
/// packet exactly when it carries the signature.
pub proof fn lemma_single_page_search(
    flags: u8,
    granule: u64,
    serial: u32,
    sequence: u32,
    packet: Seq<u8>,
)
    requires
        packet.len() < 255 * 255,
    ensures
        comment_packet(single_page_stream(flags, granule, serial, sequence, packet)) == if is_comment_header(packet) {
            Ok::<Seq<u8>, crate::Error>(packet)
        } else {
            Err(crate::Error::NoCommentsFound)
        },
{
    let len = packet.len();
    let segs = lacing(len);
    assert(segs =~= full_segments(len / 255) + seq![(len % 255) as u8]);
    lemma_table_sum(len / 255, (len % 255) as u8);
    let data = single_page_stream(flags, granule, serial, sequence, packet);
    assert(data.subrange(0, data.len() as int) =~= data);
    lemma_page_round_trip(data, 0, flags, granule, serial, sequence, segs, packet);
    let pg = page_at(data, 0)->Ok_0;
    assert(data.subrange(pg.body_start, pg.body_start + len) =~= packet);
    assert(packet.take(0) =~= Seq::<u8>::empty());
    assert(segs =~= full_segments(len / 255) + seq![(len % 255) as u8]);
    lemma_feed_last(data, pg, Seq::empty(), len / 255, (len % 255) as u8, 0);
    assert(Seq::<u8>::empty() + packet =~= packet);
    assert(scan_pages(data, pg.end, Seq::empty()) == Err::<Seq<u8>, crate::Error>(
        crate::Error::NoCommentsFound,
    ));
}

/// A comment header laid out by a writer opens with the signature.
proof fn lemma_header_signed(vendor: Seq<char>, es: Seq<Entry>)
    ensures
        is_comment_header(encoded_header(vendor, es)),
{
    let rest = encoded_string(vendor) + le_bytes(es.len() as u32) + encoded_entries(es) + seq![1u8];
    let p = encoded_header(vendor, es);
    assert(p =~= signature() + rest);
    assert(p[0] == 3 && p[1] == 0x76 && p[2] == 0x6f && p[3] == 0x72);
    assert(p[4] == 0x62 && p[5] == 0x69 && p[6] == 0x73);
}

/// Reading a one-page stream whose one packet is a comment header laid out
/// by a writer gives back the vendor string and the comments that were
/// written, in their order.
#[verifier::spinoff_prover]
pub proof fn lemma_single_page_tag(
    flags: u8,
    granule: u64,
    serial: u32,
    sequence: u32,
    vendor: Seq<char>,
    es: Seq<Entry>,
)
    requires
        writable(vendor, es),
        encoded_header(vendor, es).len() < 255 * 255,
    ensures
        parse_stream(single_page_stream(flags, granule, serial, sequence, encoded_header(vendor, es)))
            == Ok::<(Seq<char>, Seq<Entry>), crate::Error>((vendor, es)),
{
    let p = encoded_header(vendor, es);
    lemma_header_signed(vendor, es);
    lemma_single_page_search(flags, granule, serial, sequence, p);
    lemma_header_round_trip(vendor, es);
}

/// An empty vendor string is written as a zero length and read back as the
/// empty string, not as an error.
pub proof fn lemma_empty_vendor(
    flags: u8,
    granule: u64,
    serial: u32,
    sequence: u32,
    es: Seq<Entry>,
)
    requires
        writable(Seq::empty(), es),
        encoded_header(Seq::empty(), es).len() < 255 * 255,
    ensures
        encode_utf8(Seq::<char>::empty()).len() == 0,
        parse_stream(single_page_stream(flags, granule, serial, sequence, encoded_header(Seq::empty(), es)))
            == Ok::<(Seq<char>, Seq<Entry>), crate::Error>((Seq::empty(), es)),
{
    lemma_single_page_tag(flags, granule, serial, sequence, Seq::empty(), es);
}

/// A comment header with no comments reads as an empty comment map, not as
/// an error.
pub proof fn lemma_no_comments(flags: u8, granule: u64, serial: u32, sequence: u32, vendor: Seq<char>)
    requires
        writable(vendor, Seq::empty()),
        encoded_header(vendor, Seq::empty()).len() < 255 * 255,
    ensures
        parse_stream(single_page_stream(flags, granule, serial, sequence, encoded_header(vendor, Seq::empty())))
            == Ok::<(Seq<char>, Seq<Entry>), crate::Error>((vendor, Seq::empty())),
        comment_map(Seq::empty()) == Map::<Seq<char>, Seq<Seq<char>>>::empty(),
{
    lemma_single_page_tag(flags, granule, serial, sequence, vendor, Seq::empty());
    assert(comment_map(Seq::empty()) =~= Map::<Seq<char>, Seq<Seq<char>>>::empty());
}

/// A comment string without `=` is rejected as malformed.
pub proof fn lemma_missing_separator(text: Seq<char>)
    requires
        !has_equals(text),
    ensures
        entry_of(encode_utf8(text)) == Err::<Entry, crate::Error>(crate::Error::MalformedComment),
{
    let c = encode_utf8(text);
    encode_utf8_valid_utf8(text);
    lemma_encode_avoids_equals(text);
    lemma_no_equals(c, 0);
}

/// Where no `=` follows `i`, the search for one ends at the end.
proof fn lemma_no_equals(c: Seq<u8>, i: int)
    requires
        0 <= i <= c.len(),
        forall|j: int| i <= j < c.len() ==> c[j] != EQUALS,
    ensures
        eq_index_from(c, i) == c.len(),
    decreases c.len() - i,
{
    if i < c.len() {
        lemma_no_equals(c, i + 1);
    }
}

/// A one-page stream whose one packet lacks the comment-header signature,
/// such as another codec's identification packet, has no comments.
pub proof fn lemma_other_packet(flags: u8, granule: u64, serial: u32, sequence: u32, packet: Seq<u8>)
    requires
        packet.len() < 255 * 255,
        !is_comment_header(packet),
    ensures
        parse_stream(single_page_stream(flags, granule, serial, sequence, packet)) == Err::<
            (Seq<char>, Seq<Entry>),
            crate::Error,
        >(crate::Error::NoCommentsFound),
{
    lemma_single_page_search(flags, granule, serial, sequence, packet);
}

/// Written comments cut short after `pos` fail to decode for want of
/// bytes.
#[verifier::spinoff_prover]
proof fn lemma_entries_truncated(q: Seq<u8>, pos: int, es: Seq<Entry>, acc: Seq<Entry>)
    requires
        0 <= pos <= q.len(),
        q.len() < pos + encoded_entries(es).len(),
        q.subrange(pos, q.len() as int) == encoded_entries(es).take(q.len() - pos),
        forall|i: int| 0 <= i < es.len() ==> writable_entry(#[trigger] es[i]),
    ensures
        decode_entries(q, pos, es.len(), acc) == Err::<Seq<Entry>, crate::Error>(crate::truncated()),
    decreases es.len(),
{
    let all = encoded_entries(es);
    let m = q.len() - pos;
    let t = q.subrange(pos, q.len() as int);
    assert(es.len() > 0);
    let e = es[0];
    assert(writable_entry(es[0]));
    let c = encode_utf8(comment_text(e));
    let rest = encoded_entries(es.drop_first());
    let n = c.len() as int;
    assert(all =~= le_bytes(n as u32) + c + rest);
    if pos + 4 <= q.len() {
        assert(q.subrange(pos, pos + 4) =~= t.subrange(0, 4));
        assert(all.take(m).subrange(0, 4) =~= le_bytes(n as u32));
        lemma_le_round_trip(q, pos, n as u32);
        if pos + 4 + n <= q.len() {
            assert(q.subrange(pos + 4, pos + 4 + n) =~= t.subrange(4, 4 + n));
            assert(all.take(m).subrange(4, 4 + n) =~= c);
            lemma_entry_round_trip(e);
            let next = pos + 4 + n;
            assert(q.subrange(next, q.len() as int) =~= t.subrange(4 + n, m));
            assert(all.take(m).subrange(4 + n, m) =~= rest.take(q.len() - next));
            assert forall|i: int| 0 <= i < es.drop_first().len() implies writable_entry(
                #[trigger] es.drop_first()[i],
            ) by {
                assert(es.drop_first()[i] == es[i + 1]);
            }
            lemma_entries_truncated(q, next, es.drop_first(), acc.push(e));
        }
    }
}

/// Cutting a written comment header short anywhere before its framing byte
/// makes decoding fail for want of bytes, never with a wrong length or
/// value.
#[verifier::rlimit(50)]
#[verifier::spinoff_prover]
pub proof fn lemma_truncated_header(vendor: Seq<char>, es: Seq<Entry>, k: int)
    requires
        writable(vendor, es),
        0 <= k < encoded_header(vendor, es).len() - 1,
    ensures
        decode_header(encoded_header(vendor, es).take(k)) == Err::<
            (Seq<char>, Seq<Entry>),
            crate::Error,
        >(crate::truncated()),
{
    let p = encoded_header(vendor, es);
    let q = p.take(k);
    let v = encode_utf8(vendor);
    let n = v.len() as int;
    let body = encoded_entries(es);
    assert(p =~= signature() + le_bytes(n as u32) + v + le_bytes(es.len() as u32) + body + seq![
        1u8,
    ]);
    if k >= 11 {
        assert(q.subrange(7, 11) =~= le_bytes(n as u32));
        lemma_le_round_trip(q, 7, n as u32);
        if k >= 11 + n {
            assert(q.subrange(11, 11 + n) =~= v);
            encode_utf8_valid_utf8(vendor);
            if k >= 15 + n {
                assert(q.subrange(11 + n, 15 + n) =~= le_bytes(es.len() as u32));
                lemma_le_round_trip(q, 11 + n, es.len() as u32);
                assert(q.subrange(15 + n, k) =~= body.take(k - (15 + n)));
                lemma_entries_truncated(q, 15 + n, es, Seq::empty());
            }
        }
    }
}

/// Cutting a one-page stream short anywhere but at its very start makes
/// reading fail for want of bytes.
#[verifier::rlimit(60)]
#[verifier::spinoff_prover]
pub proof fn lemma_truncated_stream(
    flags: u8,
    granule: u64,
    serial: u32,
    sequence: u32,
    packet: Seq<u8>,
    k: int,
)
    requires
        packet.len() < 255 * 255,
        0 < k < single_page_stream(flags, granule, serial, sequence, packet).len(),
    ensures
        parse_stream(single_page_stream(flags, granule, serial, sequence, packet).take(k)) == Err::<
            (Seq<char>, Seq<Entry>),
            crate::Error,
        >(crate::truncated()),
{
    reveal(page_image);
    let len = packet.len();
    let segs = lacing(len);
    let n = segs.len();
    assert(segs =~= full_segments(len / 255) + seq![(len % 255) as u8]);
    lemma_table_sum(len / 255, (len % 255) as u8);
    let img = single_page_stream(flags, granule, serial, sequence, packet);
    let unsigned = page_header(flags, granule, serial, sequence, 0, n as u8) + segs + packet;
    let h = page_header(flags, granule, serial, sequence, crc_of(unsigned), n as u8);
    assert(img =~= h + segs + packet);
    let q = img.take(k);
    if k >= 27 {
        assert(q[0] == img[0] && q[1] == img[1] && q[2] == img[2] && q[3] == img[3]);
        assert(q[4] == img[4] && q[26] == img[26]);
        if 27 + n <= k {
            assert(q.subrange(27, 27 + n as int) =~= segs);
        }
    }
    assert(page_at(q, 0) == Err::<PageView, crate::Error>(crate::truncated()));
}

} // verus!
