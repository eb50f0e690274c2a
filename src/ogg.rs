//! Little-endian field reads, and the decoder of the Vorbis comment header.
//!
//! After its 7-byte signature the header holds a 32-bit vendor length, the
//! vendor string, a 32-bit comment count, and that many length-prefixed
//! `KEY=value` strings. All integers are little-endian and all strings
//! UTF-8.
use vstd::prelude::*;

use vstd::utf8::{
    is_char_boundary, is_char_boundary_iff_not_is_continuation_byte, valid_utf8,
    valid_utf8_split, decode_utf8, pop_first_scalar,
};

use crate::packet::{comment_packet, find_comment_packet};
use crate::{truncated, Error, IoFault};

verus! {

/// The unsigned little-endian 32-bit value stored at `s[i..i + 4]`.
pub open spec fn le_u32(s: Seq<u8>, i: int) -> u32 {
    (s[i] as int + s[i + 1] as int * 0x100 + s[i + 2] as int * 0x1_0000 + s[i + 3] as int
        * 0x100_0000) as u32
}

/// Reads the byte at `*pos` and moves `*pos` past it; fails, leaving `*pos`
/// alone, when no byte is left.
pub fn read_u8(data: &[u8], pos: &mut usize) -> (r: Result<u8, Error>)
    ensures
        *old(pos) < data@.len() ==> r == Ok::<u8, Error>(data@[*old(pos) as int]) && *final(pos)
            == *old(pos) + 1,
        *old(pos) >= data@.len() ==> r == Err::<u8, Error>(truncated()) && *final(pos) == *old(
            pos,
        ),
{
    if *pos < data.len() {
        let b = data[*pos];
        *pos = *pos + 1;
        Ok(b)
    } else {
        Err(Error::IoFailure(crate::IoFault::UnexpectedEnd))
    }
}

/// Reads the little-endian `u32` at `*pos` and moves `*pos` past it; fails,
/// leaving `*pos` alone, when fewer than four bytes are left.
pub fn read_u32(data: &[u8], pos: &mut usize) -> (r: Result<u32, Error>)
    ensures
        *old(pos) + 4 <= data@.len() ==> r == Ok::<u32, Error>(le_u32(data@, *old(pos) as int))
            && *final(pos) == *old(pos) + 4,
        *old(pos) + 4 > data@.len() ==> r == Err::<u32, Error>(truncated()) && *final(pos) == *old(
            pos,
        ),
{
    if *pos < data.len() && data.len() - *pos >= 4 {
        let i = *pos;
        let v: u32 = data[i] as u32 + data[i + 1] as u32 * 0x100 + data[i + 2] as u32 * 0x1_0000
            + data[i + 3] as u32 * 0x100_0000;
        *pos = i + 4;
        Ok(v)
    } else {
        Err(Error::IoFailure(crate::IoFault::UnexpectedEnd))
    }
}

/// One comment: its key and its value.
pub type Entry = (Seq<char>, Seq<char>);

/// The byte `=`.
pub const EQUALS: u8 = 0x3d;

/// Index of the first `=` in `c` at or after `i`; `c.len()` when there is
/// none.
pub open spec fn eq_index_from(c: Seq<u8>, i: int) -> int
    decreases c.len() - i,
{
    if i < 0 || i >= c.len() {
        c.len() as int
    } else if c[i] == EQUALS {
        i
    } else {
        eq_index_from(c, i + 1)
    }
}

/// A comment string decoded and split at its first `=`.
pub open spec fn entry_of(c: Seq<u8>) -> Result<Entry, Error> {
    let p = eq_index_from(c, 0);
    if !valid_utf8(c) {
        Err(Error::InvalidText)
    } else if p >= c.len() {
        Err(Error::MalformedComment)
    } else {
        Ok((decode_utf8(c.take(p)), decode_utf8(c.skip(p + 1))))
    }
}

/// Decodes `count` more length-prefixed comments of packet `p` from `pos`,
/// after the comments `acc`.
pub open spec fn decode_entries(p: Seq<u8>, pos: int, count: nat, acc: Seq<Entry>) -> Result<
    Seq<Entry>,
    Error,
>
    decreases count,
{
    if count == 0 {
        Ok(acc)
    } else if pos + 4 > p.len() {
        Err(truncated())
    } else {
        let n = le_u32(p, pos) as int;
        if n > usize::MAX {
            Err(Error::LengthOverflow)
        } else if pos + 4 + n > p.len() {
            Err(truncated())
        } else {
            match entry_of(p.subrange(pos + 4, pos + 4 + n)) {
                Err(e) => Err(e),
                Ok(e) => decode_entries(p, pos + 4 + n, (count - 1) as nat, acc.push(e)),
            }
        }
    }
}

/// The vendor string and the comments of a comment-header packet, in the
/// order they are stored.
pub open spec fn decode_header(p: Seq<u8>) -> Result<(Seq<char>, Seq<Entry>), Error> {
    if 11 > p.len() {
        Err(truncated())
    } else {
        let n = le_u32(p, 7) as int;
        if n > usize::MAX {
            Err(Error::LengthOverflow)
        } else if 11 + n > p.len() {
            Err(truncated())
        } else if !valid_utf8(p.subrange(11, 11 + n)) {
            Err(Error::InvalidText)
        } else if 15 + n > p.len() {
            Err(truncated())
        } else {
            match decode_entries(p, 15 + n, le_u32(p, 11 + n) as nat, Seq::empty()) {
                Ok(es) => Ok((decode_utf8(p.subrange(11, 11 + n)), es)),
                Err(e) => Err(e),
            }
        }
    }
}

/// The vendor string and the comments of a whole stream.
pub open spec fn parse_stream(data: Seq<u8>) -> Result<(Seq<char>, Seq<Entry>), Error> {
    match comment_packet(data) {
        Ok(p) => decode_header(p),
        Err(e) => Err(e),
    }
}

/// The comments of a list of string pairs.
pub open spec fn entries_view(v: Seq<(String, String)>) -> Seq<Entry> {
    v.map_values(|e: (String, String)| (e.0@, e.1@))
}

/// Whether an executable result is the specified one.
pub open spec fn decoded_as(
    r: Result<(String, Vec<(String, String)>), Error>,
    s: Result<(Seq<char>, Seq<Entry>), Error>,
) -> bool {
    match s {
        Ok(v) => r matches Ok(t) && t.0@ == v.0 && entries_view(t.1@) == v.1,
        Err(e) => r matches Err(f) && f == e,
    }
}

/// Relies on `String::from_utf8`: it succeeds exactly on valid UTF-8, and
/// the string then holds the characters that the bytes encode.
#[verifier::external_body]
fn text_from_bytes(b: Vec<u8>) -> (r: Option<String>)
    ensures
        r is Some <==> valid_utf8(b@),
        r matches Some(s) ==> s@ == decode_utf8(b@),
{
    String::from_utf8(b).ok()
}

/// A copy of `data[from..to]`.
fn copy_range(data: &[u8], from: usize, to: usize) -> (r: Vec<u8>)
    requires
        from <= to <= data@.len(),
    ensures
        r@ == data@.subrange(from as int, to as int),
{
    let mut r: Vec<u8> = Vec::new();
    let mut k: usize = from;
    while k < to
        invariant
            from <= k <= to <= data@.len(),
            r@ == data@.subrange(from as int, k as int),
        decreases to - k,
    {
        r.push(data[k]);
        k = k + 1;
        proof {
            assert(r@ =~= data@.subrange(from as int, k as int));
        }
    }
    r
}

/// Both sides of an `=` in valid UTF-8 are valid UTF-8.
proof fn lemma_split_at_equals(c: Seq<u8>, p: int)
    requires
        valid_utf8(c),
        0 <= p < c.len(),
        c[p] == EQUALS,
    ensures
        valid_utf8(c.take(p)),
        valid_utf8(c.skip(p + 1)),
{
    is_char_boundary_iff_not_is_continuation_byte(c, p);
    assert(is_char_boundary(c, p));
    valid_utf8_split(c, p);
    let rest = c.subrange(p, c.len() as int);
    assert(c.take(p) =~= c.subrange(0, p));
    assert(rest.len() != 0);
    assert(rest[0] == EQUALS);
    assert(pop_first_scalar(rest) =~= c.skip(p + 1));
}

/// Decodes one comment string and splits it at its first `=`.
fn parse_entry(c: Vec<u8>) -> (r: Result<(String, String), Error>)
    ensures
        match entry_of(c@) {
            Ok(e) => r matches Ok(t) && t.0@ == e.0 && t.1@ == e.1,
            Err(e) => r == Err::<(String, String), Error>(e),
        },
{
    let mut p: usize = 0;
    while p < c.len() && c[p] != EQUALS
        invariant
            p <= c@.len(),
            eq_index_from(c@, p as int) == eq_index_from(c@, 0),
        decreases c@.len() - p,
    {
        p = p + 1;
    }
    let len = c.len();
    let key_bytes = copy_range(c.as_slice(), 0, p);
    let value_bytes = if p < len {
        copy_range(c.as_slice(), p + 1, len)
    } else {
        Vec::new()
    };
    let ghost bytes = c@;
    proof {
        assert(key_bytes@ =~= bytes.take(p as int));
        if p < len {
            assert(value_bytes@ =~= bytes.skip(p + 1));
            if valid_utf8(bytes) {
                lemma_split_at_equals(bytes, p as int);
            }
        }
    }
    if text_from_bytes(c).is_none() {
        return Err(Error::InvalidText);
    }
    if p == len {
        return Err(Error::MalformedComment);
    }
    match (text_from_bytes(key_bytes), text_from_bytes(value_bytes)) {
        (Some(key), Some(value)) => Ok((key, value)),
        _ => Err(Error::InvalidText),
    }
}

/// A 32-bit length as a `usize`, or `LengthOverflow` where it does not fit.
fn length_of(n: u32) -> (r: Result<usize, Error>)
    ensures
        n as int <= usize::MAX ==> r == Ok::<usize, Error>(n as usize),
        n as int > usize::MAX ==> r == Err::<usize, Error>(Error::LengthOverflow),
{
    if n as u64 > usize::MAX as u64 {
        Err(Error::LengthOverflow)
    } else {
        Ok(n as usize)
    }
}

/// Decodes a comment-header packet into its vendor string and its comments,
/// in the order they are stored. The first seven bytes, the signature, are
/// not looked at.
pub fn parse_vorbis(packet: &[u8]) -> (r: Result<(String, Vec<(String, String)>), Error>)
    ensures
        decoded_as(r, decode_header(packet@)),
{
    let mut pos: usize = 7;
    if packet.len() < 7 {
        return Err(Error::IoFailure(IoFault::UnexpectedEnd));
    }
    let n = match read_u32(packet, &mut pos) {
        Ok(n) => n,
        Err(e) => return Err(e),
    };
    let n = match length_of(n) {
        Ok(n) => n,
        Err(e) => return Err(e),
    };
    if packet.len() - pos < n {
        return Err(Error::IoFailure(IoFault::UnexpectedEnd));
    }
    let vendor = match text_from_bytes(copy_range(packet, pos, pos + n)) {
        Some(v) => v,
        None => return Err(Error::InvalidText),
    };
    pos = pos + n;
    let count = match read_u32(packet, &mut pos) {
        Ok(c) => c,
        Err(e) => return Err(e),
    };
    let ghost start = pos as int;
    let mut entries: Vec<(String, String)> = Vec::new();
    let mut j: u32 = 0;
    proof {
        assert(entries_view(entries@) =~= Seq::<Entry>::empty());
    }
    while j < count
        invariant
            pos <= packet@.len(),
            j <= count,
            decode_entries(packet@, pos as int, (count - j) as nat, entries_view(entries@))
                == decode_entries(packet@, start, count as nat, Seq::empty()),
            decode_header(packet@) == match decode_entries(
                packet@,
                start,
                count as nat,
                Seq::empty(),
            ) {
                Ok(es) => Ok((vendor@, es)),
                Err(e) => Err(e),
            },
        decreases count - j,
    {
        let n = match read_u32(packet, &mut pos) {
            Ok(n) => n,
            Err(e) => return Err(e),
        };
        let n = match length_of(n) {
            Ok(n) => n,
            Err(e) => return Err(e),
        };
        if packet.len() - pos < n {
            return Err(Error::IoFailure(IoFault::UnexpectedEnd));
        }
        let e = match parse_entry(copy_range(packet, pos, pos + n)) {
            Ok(e) => e,
            Err(e) => return Err(e),
        };
        let ghost before = entries@;
        entries.push(e);
        proof {
            assert(entries_view(entries@) =~= entries_view(before).push((e.0@, e.1@)));
        }
        pos = pos + n;
        j = j + 1;
    }
    Ok((vendor, entries))
}

/// Finds the comment header of an Ogg stream and decodes it.
pub fn parse_file(data: &[u8]) -> (r: Result<(String, Vec<(String, String)>), Error>)
    ensures
        decoded_as(r, parse_stream(data@)),
{
    match find_comment_packet(data) {
        Ok(p) => parse_vorbis(p.as_slice()),
        Err(e) => Err(e),
    }
}

} // verus!
