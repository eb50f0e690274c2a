use oggmeta::crc::crc32;
use oggmeta::ogg::{parse_file, parse_vorbis, read_u32, read_u8};
use oggmeta::packet::find_comment_packet;
use oggmeta::page::next_page;
use oggmeta::{Error, IoFault, Tag};

fn le(n: u32) -> [u8; 4] {
    n.to_le_bytes()
}

fn comment_header_raw(vendor: &[u8], comments: &[&[u8]]) -> Vec<u8> {
    let mut p = vec![3u8, b'v', b'o', b'r', b'b', b'i', b's'];
    p.extend_from_slice(&le(vendor.len() as u32));
    p.extend_from_slice(vendor);
    p.extend_from_slice(&le(comments.len() as u32));
    for c in comments {
        p.extend_from_slice(&le(c.len() as u32));
        p.extend_from_slice(c);
    }
    p.push(1);
    p
}

fn comment_header(vendor: &str, comments: &[&str]) -> Vec<u8> {
    let raw: Vec<&[u8]> = comments.iter().map(|c| c.as_bytes()).collect();
    comment_header_raw(vendor.as_bytes(), &raw)
}

fn lacing(len: usize) -> Vec<u8> {
    let mut l = vec![255u8; len / 255];
    l.push((len % 255) as u8);
    l
}

fn page(flags: u8, sequence: u32, segments: &[u8], body: &[u8]) -> Vec<u8> {
    let mut p = b"OggS".to_vec();
    p.push(0);
    p.push(flags);
    p.extend_from_slice(&[0u8; 8]);
    p.extend_from_slice(&le(0x1234_5678));
    p.extend_from_slice(&le(sequence));
    p.extend_from_slice(&[0u8; 4]);
    p.push(segments.len() as u8);
    p.extend_from_slice(segments);
    p.extend_from_slice(body);
    let c = crc32(&p);
    p[22..26].copy_from_slice(&le(c));
    p
}

/// One page holding each packet whole.
fn single_page(packets: &[Vec<u8>]) -> Vec<u8> {
    let mut segs = Vec::new();
    let mut body = Vec::new();
    for p in packets {
        segs.extend(lacing(p.len()));
        body.extend_from_slice(p);
    }
    page(2, 0, &segs, &body)
}

/// The packet spread over pages of at most `budget` segments each.
fn split_pages(packet: &[u8], budget: usize) -> Vec<u8> {
    let segs = lacing(packet.len());
    let mut out = Vec::new();
    let mut off = 0;
    let mut seq = 0;
    for chunk in segs.chunks(budget) {
        let len: usize = chunk.iter().map(|s| *s as usize).sum();
        let flags = if seq == 0 { 2 } else { 1 };
        out.extend(page(flags, seq, chunk, &packet[off..off + len]));
        off += len;
        seq += 1;
    }
    out
}

#[test]
fn crc_of_check_string() {
    assert_eq!(crc32(b"123456789"), 0x89A1_897F);
    assert_eq!(crc32(b""), 0);
}

#[test]
fn read_u8_and_u32_advance() {
    let data = [0x01u8, 0x02, 0x03, 0x04, 0x05];
    let mut pos = 0usize;
    assert_eq!(read_u8(&data, &mut pos), Ok(1));
    assert_eq!(pos, 1);
    assert_eq!(read_u32(&data, &mut pos), Ok(0x0504_0302));
    assert_eq!(pos, 5);
    assert_eq!(read_u8(&data, &mut pos), Err(Error::IoFailure(IoFault::UnexpectedEnd)));
    let mut pos = 2usize;
    assert_eq!(read_u32(&data, &mut pos), Err(Error::IoFailure(IoFault::UnexpectedEnd)));
    assert_eq!(pos, 2);
}

#[test]
fn single_page_stream_gives_encoded_values() {
    let packet = comment_header("Xiph.Org libVorbis I 20020717", &["ARTIST=Someone", "TITLE=Song"]);
    let tag = Tag::read_from(&single_page(&[packet])).unwrap();
    assert_eq!(tag.get_vendor(), "Xiph.Org libVorbis I 20020717");
    assert_eq!(tag.get("ARTIST"), Some(vec!["Someone".to_string()]));
    assert_eq!(tag.get("TITLE"), Some(vec!["Song".to_string()]));
}

#[test]
fn packet_across_pages_decodes_the_same() {
    let long = format!("DESCRIPTION={}", "x".repeat(2000));
    let packet = comment_header("vendor", &["A=1", &long, "A=2"]);
    let one = Tag::read_from(&single_page(&[packet.clone()])).unwrap();
    for budget in [1usize, 2, 3, 5] {
        let stream = split_pages(&packet, budget);
        let many = Tag::read_from(&stream).unwrap();
        assert_eq!(many.get_vendor(), one.get_vendor());
        assert_eq!(many.get("A"), one.get("A"));
        assert_eq!(many.get("DESCRIPTION"), one.get("DESCRIPTION"));
        assert_eq!(many.get("A"), Some(vec!["1".to_string(), "2".to_string()]));
    }
}

#[test]
fn empty_vendor_is_empty_string() {
    let packet = comment_header("", &["K=v"]);
    let tag = Tag::read_from(&single_page(&[packet])).unwrap();
    assert_eq!(tag.get_vendor(), "");
    assert_eq!(tag.get("K"), Some(vec!["v".to_string()]));
}

#[test]
fn comment_without_equals_is_malformed() {
    let packet = comment_header("v", &["A=1", "NOSEPARATOR"]);
    let r = Tag::read_from(&single_page(&[packet]));
    assert!(matches!(r, Err(Error::MalformedComment)));
}

#[test]
fn zero_comments_give_empty_map() {
    let packet = comment_header("v", &[]);
    let tag = Tag::read_from(&single_page(&[packet])).unwrap();
    assert_eq!(tag.get_vendor(), "v");
    assert_eq!(tag.get("ARTIST"), None);
    let (vendor, comments) = parse_vorbis(&comment_header("v", &[])).unwrap();
    assert_eq!(vendor, "v");
    assert!(comments.is_empty());
}

#[test]
fn truncated_fields_are_io_failures() {
    let packet = comment_header("vendor", &["A=1", "B=2"]);
    // Drop the framing byte: every shorter cut stops inside a field.
    let whole = &packet[..packet.len() - 1];
    assert!(parse_vorbis(whole).is_ok());
    for cut in 0..whole.len() {
        assert_eq!(
            parse_vorbis(&whole[..cut]),
            Err(Error::IoFailure(IoFault::UnexpectedEnd)),
            "cut at {}",
            cut
        );
    }
    // Two of the four bytes of the vendor length.
    assert_eq!(parse_vorbis(&packet[..9]), Err(Error::IoFailure(IoFault::UnexpectedEnd)));
}

#[test]
fn truncated_page_is_io_failure() {
    let stream = single_page(&[comment_header("v", &["A=1"])]);
    for cut in [1usize, 10, 26, 27, 28, stream.len() - 1] {
        let r = Tag::read_from(&stream[..cut]);
        assert!(matches!(r, Err(Error::IoFailure(IoFault::UnexpectedEnd))), "cut at {}", cut);
    }
}

#[test]
fn other_codec_packet_gives_no_comments() {
    let mut ident = vec![1u8];
    ident.extend_from_slice(b"vorbis");
    ident.extend_from_slice(&[0u8; 23]);
    let r = Tag::read_from(&single_page(&[ident]));
    assert!(matches!(r, Err(Error::NoCommentsFound)));
    let opus = b"OpusHead\x01\x02\x00\x00\x80\xbb\x00\x00\x00\x00\x00".to_vec();
    let r = Tag::read_from(&single_page(&[opus]));
    assert!(matches!(r, Err(Error::NoCommentsFound)));
}

#[test]
fn empty_stream_gives_no_comments() {
    assert!(matches!(Tag::read_from(&[]), Err(Error::NoCommentsFound)));
    assert!(matches!(find_comment_packet(&[]), Err(Error::NoCommentsFound)));
}

#[test]
fn get_is_case_sensitive_and_ordered() {
    let packet = comment_header("v", &["Artist=x", "ARTIST=first", "GENRE=g", "ARTIST=second"]);
    let tag = Tag::read_from(&single_page(&[packet])).unwrap();
    assert_eq!(tag.get("ARTIST"), Some(vec!["first".to_string(), "second".to_string()]));
    assert_eq!(tag.get("Artist"), Some(vec!["x".to_string()]));
    assert_eq!(tag.get("artist"), None);
    assert_eq!(tag.get("MISSING"), None);
}

#[test]
fn comment_header_after_identification_packet() {
    let mut ident = vec![1u8];
    ident.extend_from_slice(b"vorbis");
    ident.extend_from_slice(&[0u8; 23]);
    let first = page(2, 0, &lacing(ident.len()), &ident);
    let packet = comment_header("lib", &["TITLE=t"]);
    let second = page(0, 1, &lacing(packet.len()), &packet);
    let mut stream = first;
    stream.extend(second);
    let tag = Tag::read_from(&stream).unwrap();
    assert_eq!(tag.get_vendor(), "lib");
    assert_eq!(tag.get("TITLE"), Some(vec!["t".to_string()]));
    let (vendor, _) = parse_file(&stream).unwrap();
    assert_eq!(vendor, "lib");
}

#[test]
fn value_is_split_at_first_equals() {
    let packet = comment_header("v", &["EQ=a=b", "EMPTY=", "=novalue"]);
    let tag = Tag::read_from(&single_page(&[packet])).unwrap();
    assert_eq!(tag.get("EQ"), Some(vec!["a=b".to_string()]));
    assert_eq!(tag.get("EMPTY"), Some(vec!["".to_string()]));
    assert_eq!(tag.get(""), Some(vec!["novalue".to_string()]));
}

#[test]
fn non_ascii_text_is_decoded() {
    let packet = comment_header("Vendör ✓", &["TITLE=Über 🎵"]);
    let tag = Tag::read_from(&single_page(&[packet])).unwrap();
    assert_eq!(tag.get_vendor(), "Vendör ✓");
    assert_eq!(tag.get("TITLE"), Some(vec!["Über 🎵".to_string()]));
}

#[test]
fn invalid_utf8_is_invalid_text() {
    let packet = comment_header_raw(&[0xff, 0xfe], &[]);
    assert!(matches!(Tag::read_from(&single_page(&[packet])), Err(Error::InvalidText)));
    let packet = comment_header_raw(b"ok", &[b"A=\xc3"]);
    assert!(matches!(Tag::read_from(&single_page(&[packet])), Err(Error::InvalidText)));
    let packet = comment_header_raw(b"ok", &[b"\xe2\x82"]);
    assert!(matches!(Tag::read_from(&single_page(&[packet])), Err(Error::InvalidText)));
}

#[test]
fn bad_checksum_is_malformed() {
    let mut stream = single_page(&[comment_header("v", &["A=1"])]);
    let last = stream.len() - 1;
    stream[last] ^= 0x40;
    assert!(matches!(Tag::read_from(&stream), Err(Error::MalformedComment)));
}

#[test]
fn bad_capture_or_version_is_malformed() {
    let good = single_page(&[comment_header("v", &["A=1"])]);
    let mut bad = good.clone();
    bad[0] = b'o';
    assert!(matches!(Tag::read_from(&bad), Err(Error::MalformedComment)));
    let mut bad = good.clone();
    bad[4] = 1;
    assert!(matches!(Tag::read_from(&bad), Err(Error::MalformedComment)));
}

#[test]
fn continuation_page_without_flag_is_malformed() {
    let packet = comment_header("v", &[&format!("LONG={}", "y".repeat(600))]);
    let mut stream = split_pages(&packet, 1);
    // The second page must say that it continues a packet: clear that flag.
    let first_len = 27 + 1 + 255;
    stream[first_len + 5] = 0;
    let c = {
        let mut p = stream[first_len..first_len + 27 + 1 + 255].to_vec();
        p[22..26].copy_from_slice(&[0; 4]);
        crc32(&p)
    };
    stream[first_len + 22..first_len + 26].copy_from_slice(&le(c));
    assert!(matches!(Tag::read_from(&stream), Err(Error::MalformedComment)));
}

#[test]
fn stream_ending_inside_packet_is_io_failure() {
    let packet = comment_header("v", &[&format!("LONG={}", "y".repeat(600))]);
    let segs = lacing(packet.len());
    let stream = page(2, 0, &segs[..1], &packet[..255]);
    assert!(matches!(Tag::read_from(&stream), Err(Error::IoFailure(IoFault::UnexpectedEnd))));
}

#[test]
fn next_page_reads_header_fields() {
    let body = [1u8, 2, 3];
    let stream = page(4, 7, &[3], &body);
    let p = next_page(&stream, 0).unwrap().unwrap();
    assert_eq!(p.header_type, 4);
    assert_eq!(p.sequence, 7);
    assert_eq!(p.serial, 0x1234_5678);
    assert_eq!(p.granule_position, 0);
    assert_eq!(p.segments, vec![3u8]);
    assert_eq!(p.body_start, 28);
    assert_eq!(p.end, 31);
    assert!(next_page(&stream, stream.len()).unwrap().is_none());
}
