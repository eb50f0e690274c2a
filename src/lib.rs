//! Reads the vendor string and the `KEY=value` comments of an Ogg Vorbis
//! stream held in memory.
//!
//! The stream is taken apart in three layers: [`page`] reads one Ogg page and
//! checks its CRC, [`packet`] joins page segments into packets and finds the
//! comment header, and [`ogg`] decodes that header.
use vstd::prelude::*;

use crate::ogg::{entries_view, parse_file, parse_stream, Entry};

pub mod crc;
pub mod encoding;
pub mod ogg;
pub mod packet;
pub mod page;

verus! {

/// What went wrong when input bytes ran short, or a read failed.
#[derive(Debug, Clone, Copy, PartialEq, Eq, Structural)]
pub enum IoFault {
    /// The input ended in the middle of a field.
    UnexpectedEnd,
    /// The device or byte source reported a failure of its own.
    Device,
}

/// The ways reading a tag can fail.
#[derive(Debug, Clone, Copy, PartialEq, Eq, Structural)]
#[non_exhaustive]
pub enum Error {
    /// The stream ended without a Vorbis comment header packet.
    NoCommentsFound,
    /// The input could not be read, or ended in the middle of a field.
    IoFailure(IoFault),
    /// A length-prefixed string was not valid UTF-8.
    InvalidText,
    /// A 32-bit length does not fit in `usize`.
    LengthOverflow,
    /// A comment lacks its `=`, or a page header or page checksum is wrong.
    MalformedComment,
}

/// The error for input that ends in the middle of a field.
pub open spec fn truncated() -> Error {
    Error::IoFailure(IoFault::UnexpectedEnd)
}

/// The values stored under `key`, in the order their comments appear.
pub open spec fn values_for(entries: Seq<Entry>, key: Seq<char>) -> Seq<Seq<char>>
    decreases entries.len(),
{
    if entries.len() == 0 {
        Seq::empty()
    } else {
        let rest = values_for(entries.drop_last(), key);
        if entries.last().0 == key {
            rest.push(entries.last().1)
        } else {
            rest
        }
    }
}

/// The comments as a map from each key that occurs to its values.
pub open spec fn comment_map(entries: Seq<Entry>) -> Map<Seq<char>, Seq<Seq<char>>> {
    Map::new(|k: Seq<char>| values_for(entries, k).len() > 0, |k: Seq<char>| values_for(entries, k))
}

/// The metadata of a stream: its vendor string, and its comments in the
/// order they are stored.
pub struct Tag {
    vendor: String,
    comments: Vec<(String, String)>,
}

impl View for Tag {
    type V = (Seq<char>, Seq<Entry>);

    closed spec fn view(&self) -> (Seq<char>, Seq<Entry>) {
        (self.vendor@, entries_view(self.comments@))
    }
}

impl Tag {
    /// The comments of the tag as a map from key to values.
    pub open spec fn comments(&self) -> Map<Seq<char>, Seq<Seq<char>>> {
        comment_map(self@.1)
    }

    /// Reads the tag of the Ogg Vorbis stream `data`: the first packet that
    /// carries the comment-header signature, decoded. Fails as a whole, with
    /// no partial tag.
    pub fn read_from(data: &[u8]) -> (r: Result<Tag, Error>)
        ensures
            match parse_stream(data@) {
                Ok(v) => r matches Ok(t) && t@ == v,
                Err(e) => r == Err::<Tag, Error>(e),
            },
    {
        match parse_file(data) {
            Ok((vendor, comments)) => Ok(Tag { vendor, comments }),
            Err(e) => Err(e),
        }
    }

    /// The vendor string.
    pub fn get_vendor(&self) -> (r: String)
        ensures
            r@ == self@.0,
    {
        self.vendor.clone()
    }

    /// The values stored under exactly `key`, in the order they appear, or
    /// `None` where no comment has that key. Keys are compared as they are,
    /// case included.
    pub fn get(&self, key: &str) -> (r: Option<Vec<String>>)
        ensures
            r is None <==> !self.comments().contains_key(key@),
            r matches Some(v) ==> v@.map_values(|s: String| s@) == self.comments()[key@],
    {
        let wanted = key.to_owned();
        let mut found: Vec<String> = Vec::new();
        let mut i: usize = 0;
        while i < self.comments.len()
            invariant
                wanted@ == key@,
                i <= self.comments@.len(),
                found@.map_values(|s: String| s@) == values_for(
                    entries_view(self.comments@).take(i as int),
                    key@,
                ),
            decreases self.comments@.len() - i,
        {
            let ghost before = found@;
            proof {
                assert(entries_view(self.comments@).take(i + 1).drop_last() =~= entries_view(
                    self.comments@,
                ).take(i as int));
            }
            if self.comments[i].0 == wanted {
                found.push(self.comments[i].1.clone());
                proof {
                    assert(found@.map_values(|s: String| s@) =~= before.map_values(
                        |s: String| s@,
                    ).push(self.comments@[i as int].1@));
                }
            }
            i = i + 1;
        }
        proof {
            assert(entries_view(self.comments@).take(i as int) =~= entries_view(self.comments@));
        }
        if found.len() == 0 {
            None
        } else {
            Some(found)
        }
    }
}

} // verus!
