use ireul::track::OggTrack;
use ireul::vorbis::{
    parse_comment_header, split_comment, Comments, VorbisHeader, VorbisHeaderBuf,
    VorbisHeaderCheckError, VorbisHeaderType,
};

fn reference_crc(data: &[u8]) -> u32 {
    let mut crc: u32 = 0;
    for &byte in data {
        crc ^= (byte as u32) << 24;
        for _ in 0..8 {
            crc = if crc & 0x8000_0000 != 0 { (crc << 1) ^ 0x04C1_1DB7 } else { crc << 1 };
        }
    }
    crc
}

fn raw_page(flags: u8, granule: u64, serial: u32, sequence: u32, packets: &[&[u8]]) -> Vec<u8> {
    let mut table = Vec::new();
    let mut body = Vec::new();
    for packet in packets {
        for _ in 0..packet.len() / 255 {
            table.push(255u8);
        }
        table.push((packet.len() % 255) as u8);
        body.extend_from_slice(packet);
    }
    let mut page = Vec::new();
    page.extend_from_slice(b"OggS");
    page.push(0);
    page.push(flags);
    page.extend_from_slice(&granule.to_le_bytes());
    page.extend_from_slice(&serial.to_le_bytes());
    page.extend_from_slice(&sequence.to_le_bytes());
    page.extend_from_slice(&[0, 0, 0, 0]);
    page.push(table.len() as u8);
    page.extend_from_slice(&table);
    page.extend_from_slice(&body);
    let crc = reference_crc(&page);
    page[22..26].copy_from_slice(&crc.to_le_bytes());
    page
}

fn sample_ogg() -> Vec<u8> {
    let mut id = vec![0x01];
    id.extend_from_slice(b"vorbis");
    id.extend_from_slice(&[0, 0, 0, 0, 2, 0x44, 0xac, 0, 0]);
    id.extend_from_slice(&[0, 0, 0, 0, 0x80, 0xb5, 0x01, 0x00, 0, 0, 0, 0, 0xb8, 0x01]);
    let mut comments = vec![0x03];
    comments.extend_from_slice(b"vorbis");
    let vendor = "Xiph.Org libVorbis I 20020713";
    comments.extend_from_slice(&(vendor.len() as u32).to_le_bytes());
    comments.extend_from_slice(vendor.as_bytes());
    let entries = [
        "TITLE=Hydrate - Kenny Beltrey",
        "ARTIST=Kenny Beltrey",
        "ALBUM=Favorite Things",
        "DATE=2002",
        "COMMENT=http://www.kahvi.org",
        "TRACKNUMBER=2",
    ];
    comments.extend_from_slice(&(entries.len() as u32).to_le_bytes());
    for entry in entries {
        comments.extend_from_slice(&(entry.len() as u32).to_le_bytes());
        comments.extend_from_slice(entry.as_bytes());
    }
    comments.push(1);
    let mut setup = vec![0x05];
    setup.extend_from_slice(b"vorbis");
    setup.extend_from_slice(&[7u8; 300]);
    let mut track = raw_page(0x02, 0, 9, 0, &[&id]);
    track.extend_from_slice(&raw_page(0x00, 0, 9, 1, &[&comments, &setup]));
    track.extend_from_slice(&raw_page(0x04, 4096, 9, 2, &[&[1u8; 64]]));
    track
}

fn comments_helper(items: &[(&str, &str)]) -> Vec<(String, String)> {
    items.iter().map(|&(k, v)| (k.to_string(), v.to_string())).collect()
}

const COMMENT_HEADER_VALID: &[u8] = &[
    0x03, b'v', b'o', b'r', b'b', b'i', b's',
    0x04, 0x00, 0x00, 0x00, // vendor length = 4
    b't', b'e', b's', b't',
    0x02, 0x00, 0x00, 0x00, // comment count
    0x04, 0x00, 0x00, 0x00, // comment length = 4
    b'A', b'=', b'a', b'a',
    0x04, 0x00, 0x00, 0x00, // comment length = 4
    b'B', b'=', b'b', b'b',
    0x01, // framing bit
];

const COMMENT_HEADER_UNSET_FRAMING_BIT: &[u8] = &[
    0x03, b'v', b'o', b'r', b'b', b'i', b's',
    0x04, 0x00, 0x00, 0x00,
    b't', b'e', b's', b't',
    0x02, 0x00, 0x00, 0x00,
    0x04, 0x00, 0x00, 0x00,
    b'A', b'=', b'a', b'a',
    0x04, 0x00, 0x00, 0x00,
    b'B', b'=', b'b', b'b',
    0x00, // unset framing bit
];

const COMMENT_HEADER_FRAMING_BIT_TRUNCATED: &[u8] = &[
    0x03, b'v', b'o', b'r', b'b', b'i', b's',
    0x04, 0x00, 0x00, 0x00,
    b't', b'e', b's', b't',
    0x02, 0x00, 0x00, 0x00,
    0x04, 0x00, 0x00, 0x00,
    b'A', b'=', b'a', b'a',
    0x04, 0x00, 0x00, 0x00,
    b'B', b'=', b'b', b'b',
    // truncated: missing framing bit
];

const COMMENT_HEADER_TRUNCATED_MID_COMMENT: &[u8] = &[
    0x03, b'v', b'o', b'r', b'b', b'i', b's',
    0x04, 0x00, 0x00, 0x00,
    b't', b'e', b's', b't',
    0x02, 0x00, 0x00, 0x00,
    0x04, 0x00, 0x00, 0x00,
    b'A', b'=', b'a', b'a',
    0x04, 0x00, 0x00, 0x00,
    b'B', b'=',
    // truncated: the second comment should have continued, but didn't.
];

const COMMENT_HEADER_TRUNCATED_COMMENTS: &[u8] = &[
    0x03, b'v', b'o', b'r', b'b', b'i', b's',
    0x04, 0x00, 0x00, 0x00,
    b't', b'e', b's', b't',
    0x02, 0x00, 0x00, 0x00,
    0x04, 0x00, 0x00, 0x00,
    b'A', b'=', b'a', b'a',
    // truncated: we should have a comment here, but we don't.
];

#[test]
fn test_parse_identification_header() {
    let header_buf = [
        0x01, // 0     packet type, 1 = id header
        0x76, 0x6f, 0x72, 0x62, 0x69, 0x73, // 1-6   vorbis
        0x00, 0x00, 0x00, 0x00, // 7-10  version
        0x02, // 11    channels
        0x80, 0xbb, 0x00, 0x00, // 12-15 sample_rate (48000)
        0x00, 0x00, 0x00, 0x00, // 16-19 bitrate_maximum
        0x80, 0xb5, 0x01, 0x00, // 20-23 bitrate_nominal
        0x00, 0x00, 0x00, 0x00, // 24-27 bitrate_minimum
        0xb8, // 28    [blocksize_1][blocksize_0]
        0x01, // 29    framing_flag
    ];

    let test_header = VorbisHeader::new(&header_buf).unwrap();
    let id_header = test_header.identification_header().unwrap();

    assert_eq!(id_header.vorbis_version, 0);
    assert_eq!(id_header.audio_channels, 2);
    assert_eq!(id_header.audio_sample_rate, 48000);
    assert_eq!(id_header.bitrate_maximum, 0);
    assert_eq!(id_header.bitrate_nominal, 112000);
    assert_eq!(id_header.bitrate_minimum, 0);
    assert_eq!(id_header.blocksize_0, 0b1000);
    assert_eq!(id_header.blocksize_1, 0b1011);
}

#[test]
fn test_parse_non_identification_headers() {
    let not_an_id_header_buf = [
        0x00, 0x76, 0x6f, 0x72, 0x62, 0x69, 0x73, 0x00, 0x00, 0x00, 0x00,
    ];

    let negative_test_header = VorbisHeader::new(&not_an_id_header_buf).unwrap();
    let negative_id_header = negative_test_header.identification_header();
    assert!(negative_id_header.is_none());
}

#[test]
fn test_parse_malformed_identification_header() {
    let malformed_header_buf = [0x01, 0x76, 0x6f, 0x72, 0x62, 0x69, 0x73];
    let malformed_test_header = VorbisHeader::new(&malformed_header_buf);
    assert!(malformed_test_header.is_err());
}

#[test]
fn test_comment_from_ogg() {
    let sample = sample_ogg();
    let track = OggTrack::new(&sample).unwrap();
    let comment_header = VorbisHeader::find_comments(track.pages()).unwrap();

    let comments = comment_header.comments().unwrap();
    assert_eq!(comments.vendor, "Xiph.Org libVorbis I 20020713");
    assert_eq!(
        comments.comments,
        comments_helper(&[
            ("TITLE", "Hydrate - Kenny Beltrey"),
            ("ARTIST", "Kenny Beltrey"),
            ("ALBUM", "Favorite Things"),
            ("DATE", "2002"),
            ("COMMENT", "http://www.kahvi.org"),
            ("TRACKNUMBER", "2")
        ])
    );
}

#[test]
fn test_parse_comment_header_valid() {
    let test_header = VorbisHeader::new(COMMENT_HEADER_VALID).unwrap();
    let comments = test_header.comments().unwrap();
    assert_eq!(comments.vendor, "test");
    assert_eq!(comments.comments.len(), 2);
}

#[test]
fn test_parse_malformed_comment_header_unset_framing_bit() {
    VorbisHeader::new(COMMENT_HEADER_UNSET_FRAMING_BIT).err().unwrap();
}

#[test]
fn test_parse_malformed_comment_header_framing_bit_truncated() {
    VorbisHeader::new(COMMENT_HEADER_FRAMING_BIT_TRUNCATED).err().unwrap();
}

#[test]
fn test_parse_malformed_comment_header_truncated_mid_comment() {
    VorbisHeader::new(COMMENT_HEADER_TRUNCATED_MID_COMMENT).err().unwrap();
}

#[test]
fn test_parse_malformed_comment_header_truncated_comments() {
    VorbisHeader::new(COMMENT_HEADER_TRUNCATED_COMMENTS).err().unwrap();
}

#[test]
fn header_type_by_first_byte() {
    assert_eq!(VorbisHeaderType::from_u8(0), Some(VorbisHeaderType::Audio));
    assert_eq!(VorbisHeaderType::from_u8(1), Some(VorbisHeaderType::IdentificationHeader));
    assert_eq!(VorbisHeaderType::from_u8(3), Some(VorbisHeaderType::CommentHeader));
    assert_eq!(VorbisHeaderType::from_u8(5), Some(VorbisHeaderType::SetupHeader));
    assert_eq!(VorbisHeaderType::from_u8(2), None);
    assert_eq!(VorbisHeaderType::from_u8(0xff), None);
}

#[test]
fn header_check_errors() {
    assert_eq!(VorbisHeader::check(b"\x01vorbi"), Err(VorbisHeaderCheckError::BadCapture));
    assert_eq!(VorbisHeader::check(b"\x01vorbiz\x00"), Err(VorbisHeaderCheckError::BadCapture));
    assert_eq!(VorbisHeader::check(b"\x02vorbis\x00"), Err(VorbisHeaderCheckError::BadCapture));
    assert_eq!(VorbisHeader::check(b"\x05vorbis\x00"), Ok(()));
    assert_eq!(
        VorbisHeader::check(b"\x01vorbis\x00"),
        Err(VorbisHeaderCheckError::BadIdentificationHeaderLength)
    );
    let mut id = vec![0x01];
    id.extend_from_slice(b"vorbis");
    id.extend_from_slice(&[0, 0, 0, 0, 2, 0x80, 0xbb, 0, 0]);
    id.extend_from_slice(&[0, 0, 0, 0, 0, 0, 0, 0, 0, 0, 0, 0, 0xb8, 0x01]);
    assert_eq!(VorbisHeader::check(&id), Ok(()));
    let mut bad = id.clone();
    bad[11] = 0;
    assert_eq!(VorbisHeader::check(&bad), Err(VorbisHeaderCheckError::BadIdentificationHeader));
    let mut bad = id.clone();
    bad[12] = 0;
    bad[13] = 0;
    assert_eq!(VorbisHeader::check(&bad), Err(VorbisHeaderCheckError::BadIdentificationHeader));
    let mut bad = id.clone();
    bad[28] = 0x8b;
    assert_eq!(VorbisHeader::check(&bad), Err(VorbisHeaderCheckError::BadIdentificationHeader));
    let mut bad = id.clone();
    bad[29] = 0;
    assert_eq!(VorbisHeader::check(&bad), Err(VorbisHeaderCheckError::BadIdentificationHeader));
}

#[test]
fn comment_header_errors() {
    assert_eq!(
        parse_comment_header(COMMENT_HEADER_UNSET_FRAMING_BIT).err(),
        Some(VorbisHeaderCheckError::BadFramingBit)
    );
    assert_eq!(
        parse_comment_header(COMMENT_HEADER_FRAMING_BIT_TRUNCATED).err(),
        Some(VorbisHeaderCheckError::Truncated)
    );
    assert_eq!(
        parse_comment_header(COMMENT_HEADER_TRUNCATED_MID_COMMENT).err(),
        Some(VorbisHeaderCheckError::Truncated)
    );
    assert_eq!(
        parse_comment_header(COMMENT_HEADER_TRUNCATED_COMMENTS).err(),
        Some(VorbisHeaderCheckError::Truncated)
    );
    let mut no_equals = COMMENT_HEADER_VALID.to_vec();
    no_equals[24] = b'x';
    assert_eq!(
        parse_comment_header(&no_equals).err(),
        Some(VorbisHeaderCheckError::MalformedComment)
    );
    let mut bad_vendor = COMMENT_HEADER_VALID.to_vec();
    bad_vendor[11] = 0xff;
    assert_eq!(
        parse_comment_header(&bad_vendor).err(),
        Some(VorbisHeaderCheckError::InvalidUtf8)
    );
    let mut bad_comment = COMMENT_HEADER_VALID.to_vec();
    bad_comment[26] = 0xc0;
    assert_eq!(
        parse_comment_header(&bad_comment).err(),
        Some(VorbisHeaderCheckError::InvalidUtf8)
    );
}

#[test]
fn comments_are_split_at_the_first_equals() {
    assert_eq!(split_comment(b"KEY=a=b"), Ok((&b"KEY"[..], &b"a=b"[..])));
    assert_eq!(split_comment(b"=x"), Ok((&b""[..], &b"x"[..])));
    assert_eq!(split_comment(b"K="), Ok((&b"K"[..], &b""[..])));
    assert_eq!(split_comment(b"none"), Err(VorbisHeaderCheckError::MalformedComment));
    assert_eq!(split_comment(b""), Err(VorbisHeaderCheckError::MalformedComment));
    let mut header = COMMENT_HEADER_VALID.to_vec();
    header[25] = b'=';
    let comments = parse_comment_header(&header).unwrap();
    assert_eq!(comments.comments[0], ("A".to_string(), "=a".to_string()));
}

#[test]
fn comments_with_other_scripts_are_read_and_built() {
    let comments = Comments {
        vendor: "Händler".to_string(),
        comments: comments_helper(&[("TITLE", "音楽 = musique"), ("ARTIST", "")]),
    };
    let packet = comments.build_comment_packet().unwrap();
    let header = VorbisHeaderBuf::new(packet.clone()).unwrap();
    assert_eq!(header.as_u8_slice(), &packet[..]);
    let read = header.as_ref().comments().unwrap();
    assert_eq!(read, comments);
    assert!(header.as_ref().identification_header().is_none());
}

#[test]
fn comment_packet_is_built_byte_for_byte() {
    let comments = Comments {
        vendor: "test".to_string(),
        comments: comments_helper(&[("A", "aa"), ("B", "bb")]),
    };
    assert_eq!(comments.build_comment_packet().unwrap(), COMMENT_HEADER_VALID.to_vec());
}

#[test]
fn headers_are_found_in_stream_order() {
    let sample = sample_ogg();
    let track = OggTrack::new(&sample).unwrap();
    let id = VorbisHeader::find_identification(track.pages()).unwrap();
    assert_eq!(id.identification_header().unwrap().audio_sample_rate, 44100);
    assert!(id.comments().is_none());
    let mut behind_first = track.pages();
    behind_first.next();
    assert!(VorbisHeader::find_identification(behind_first).is_err());
    assert!(VorbisHeader::find_comments(behind_first_two(&sample)).is_err());
}

fn behind_first_two(sample: &[u8]) -> ireul::track::TrackPageIter<'_> {
    let track = OggTrack::new(sample).unwrap();
    let mut pages = track.pages();
    pages.next();
    pages.next();
    pages
}
