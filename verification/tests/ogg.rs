use ireul::builder::{OggBuildError, OggBuilder};
use ireul::page::{OggPage, OggPageBuf, OggPageCheckError, Recapture};
use ireul::resync::{pop_page, resync, PopError};
use ireul::rewrite::{is_comment_packet, rewrite_comments};
use ireul::track::{OggTrack, OggTrackBuf};
use ireul::vorbis::{Comments, VorbisHeader};

// An independent CRC-32: polynomial 0x04C11DB7, most significant bit first,
// initial value 0, no final inversion.
fn reference_crc(data: &[u8]) -> u32 {
    let mut crc: u32 = 0;
    for &byte in data {
        crc ^= (byte as u32) << 24;
        for _ in 0..8 {
            crc = if crc & 0x8000_0000 != 0 { (crc << 1) ^ 0x04C1_1DB7 } else { crc << 1 };
        }
    }
    crc
}

fn reference_page_crc(page: &[u8]) -> u32 {
    let mut copy = page.to_vec();
    for b in &mut copy[22..26] {
        *b = 0;
    }
    reference_crc(&copy)
}

fn raw_page(flags: u8, granule: u64, serial: u32, sequence: u32, packets: &[&[u8]]) -> Vec<u8> {
    let mut table = Vec::new();
    let mut body = Vec::new();
    for packet in packets {
        for _ in 0..packet.len() / 255 {
            table.push(255u8);
        }
        table.push((packet.len() % 255) as u8);
        body.extend_from_slice(packet);
    }
    let mut page = Vec::new();
    page.extend_from_slice(b"OggS");
    page.push(0);
    page.push(flags);
    page.extend_from_slice(&granule.to_le_bytes());
    page.extend_from_slice(&serial.to_le_bytes());
    page.extend_from_slice(&sequence.to_le_bytes());
    page.extend_from_slice(&[0, 0, 0, 0]);
    page.push(table.len() as u8);
    page.extend_from_slice(&table);
    page.extend_from_slice(&body);
    let crc = reference_crc(&page);
    page[22..26].copy_from_slice(&crc.to_le_bytes());
    page
}

fn id_header(rate: u32) -> Vec<u8> {
    let mut p = vec![0x01];
    p.extend_from_slice(b"vorbis");
    p.extend_from_slice(&0u32.to_le_bytes());
    p.push(2);
    p.extend_from_slice(&rate.to_le_bytes());
    p.extend_from_slice(&0u32.to_le_bytes());
    p.extend_from_slice(&112000u32.to_le_bytes());
    p.extend_from_slice(&0u32.to_le_bytes());
    p.push(0xb8);
    p.push(0x01);
    p
}

fn comment_header(vendor: &str, comments: &[(&str, &str)]) -> Vec<u8> {
    let mut p = vec![0x03];
    p.extend_from_slice(b"vorbis");
    p.extend_from_slice(&(vendor.len() as u32).to_le_bytes());
    p.extend_from_slice(vendor.as_bytes());
    p.extend_from_slice(&(comments.len() as u32).to_le_bytes());
    for (k, v) in comments {
        let entry = format!("{}={}", k, v);
        p.extend_from_slice(&(entry.len() as u32).to_le_bytes());
        p.extend_from_slice(entry.as_bytes());
    }
    p.push(0x01);
    p
}

fn setup_header() -> Vec<u8> {
    let mut p = vec![0x05];
    p.extend_from_slice(b"vorbis");
    p.extend_from_slice(&[7u8; 300]);
    p
}

fn sample_pages() -> Vec<Vec<u8>> {
    let comments = comment_header(
        "Xiph.Org libVorbis I 20020713",
        &[
            ("TITLE", "Hydrate - Kenny Beltrey"),
            ("ARTIST", "Kenny Beltrey"),
            ("ALBUM", "Favorite Things"),
            ("DATE", "2002"),
            ("COMMENT", "http://www.kahvi.org"),
            ("TRACKNUMBER", "2"),
        ],
    );
    vec![
        raw_page(0x02, 0, 0x1234, 0, &[&id_header(44100)]),
        raw_page(0x00, 0, 0x1234, 1, &[&comments, &setup_header()]),
        raw_page(0x00, 1024, 0x1234, 2, &[&[0x10u8; 40], &[0x20u8; 600]]),
        raw_page(0x04, 2048, 0x1234, 3, &[&[0x30u8; 17]]),
    ]
}

fn sample_ogg() -> Vec<u8> {
    sample_pages().concat()
}

#[test]
fn test_capture() {
    let mut cap = Recapture::new();
    cap.push_byte(b'O');
    assert_eq!(false, cap.is_captured());
    cap.push_byte(b'g');
    assert_eq!(false, cap.is_captured());
    cap.push_byte(b'g');
    assert_eq!(false, cap.is_captured());
    cap.push_byte(b'S');
    assert_eq!(true, cap.is_captured());
    cap.push_byte(b'g');
    assert_eq!(false, cap.is_captured());
    cap.push_byte(b'g');
    assert_eq!(false, cap.is_captured());
    cap.push_byte(b'S');
    assert_eq!(false, cap.is_captured());
    cap.push_byte(b'O');
    assert_eq!(false, cap.is_captured());
    cap.push_byte(b'g');
    assert_eq!(false, cap.is_captured());
    cap.push_byte(b'g');
    assert_eq!(false, cap.is_captured());
    cap.push_byte(b'S');
    assert_eq!(true, cap.is_captured());
}

#[test]
fn test_packets() {
    let sample = sample_ogg();
    let track = OggTrack::new(&sample).unwrap();
    let mut pages = track.pages();

    let page0 = pages.next().unwrap();
    let mut page0packets = page0.raw_packets();
    assert!(page0packets.next().unwrap().starts_with(b"\x01vorbis"));
    assert!(page0packets.next().is_none());

    let page1 = pages.next().unwrap();
    let mut page1packets = page1.raw_packets();
    assert!(page1packets.next().unwrap().starts_with(b"\x03vorbis"));
    assert!(page1packets.next().unwrap().starts_with(b"\x05vorbis"));
    assert!(page1packets.next().is_none());
}

#[test]
fn page_parse_and_emit_round_trip() {
    for bytes in sample_pages() {
        let page = OggPage::new(&bytes).unwrap();
        assert_eq!(page.as_u8_slice(), &bytes[..]);
        let owned = OggPageBuf::new(bytes.clone()).unwrap();
        assert_eq!(owned.as_u8_slice(), &bytes[..]);
        assert_eq!(page.to_owned().into_inner(), bytes);
    }
}

#[test]
fn page_fields_are_read_from_the_bytes() {
    let bytes = raw_page(0x05, 0x0102_0304_0506_0708, 0xdead_beef, 77, &[b"abc", b""]);
    let page = OggPage::new(&bytes).unwrap();
    assert_eq!(page.position(), 0x0102_0304_0506_0708);
    assert_eq!(page.serial(), 0xdead_beef);
    assert_eq!(page.sequence(), 77);
    assert!(page.continued());
    assert!(!page.bos());
    assert!(page.eos());
    assert_eq!(page.body(), b"abc");
    assert_eq!(page.segments(), &[3u8, 0u8]);
    assert!(!page.open_ended());
    let mut packets = page.raw_packets();
    assert_eq!(packets.next().unwrap(), b"abc");
    assert_eq!(packets.next().unwrap(), b"");
    assert!(packets.next().is_none());
}

#[test]
fn page_with_bytes_behind_it_is_cut() {
    let mut bytes = raw_page(0, 5, 1, 0, &[b"hello"]);
    let len = bytes.len();
    bytes.extend_from_slice(b"trailing");
    let page = OggPage::new(&bytes).unwrap();
    assert_eq!(page.as_u8_slice().len(), len);
    let owned = OggPageBuf::new(bytes.clone()).unwrap();
    assert_eq!(owned.as_u8_slice(), &bytes[..len]);
}

#[test]
fn page_check_errors() {
    let good = raw_page(0, 5, 1, 0, &[b"hello"]);
    assert!(matches!(OggPage::new(&good[..26]), Err(OggPageCheckError::TooShort)));
    assert!(matches!(OggPage::new(&good[..good.len() - 1]), Err(OggPageCheckError::TooShort)));
    assert!(matches!(OggPage::new(&good[..27]), Err(OggPageCheckError::TooShort)));
    let mut bad = good.clone();
    bad[3] = b's';
    assert!(matches!(OggPage::new(&bad), Err(OggPageCheckError::BadCapture)));
    let mut bad = good.clone();
    bad[4] = 1;
    assert!(matches!(OggPage::new(&bad), Err(OggPageCheckError::BadVersion)));
    let mut bad = good.clone();
    bad[22] ^= 1;
    assert!(matches!(OggPage::new(&bad), Err(OggPageCheckError::BadCrc)));
    let mut bad = good.clone();
    let last = bad.len() - 1;
    bad[last] ^= 0x80;
    assert!(matches!(OggPageBuf::new(bad), Err(OggPageCheckError::BadCrc)));
}

#[test]
fn crc_matches_reference_after_scoped_edits() {
    let bytes = raw_page(0x02, 0, 1, 0, &[b"some packet", &[9u8; 255]]);
    let page = OggPage::new(&bytes).unwrap();

    let edited = page.set_serial(0xfeed_f00d);
    assert_eq!(edited.as_ref().serial(), 0xfeed_f00d);
    assert_eq!(&edited.as_u8_slice()[22..26], &reference_page_crc(edited.as_u8_slice()).to_le_bytes());
    assert!(OggPage::new(edited.as_u8_slice()).is_ok());

    let edited = page.set_position(123_456_789_012);
    assert_eq!(edited.as_ref().position(), 123_456_789_012);
    assert_eq!(&edited.as_u8_slice()[22..26], &reference_page_crc(edited.as_u8_slice()).to_le_bytes());

    let edited = page.set_sequence(42);
    assert_eq!(edited.as_ref().sequence(), 42);
    assert_eq!(&edited.as_u8_slice()[22..26], &reference_page_crc(edited.as_u8_slice()).to_le_bytes());

    let mut tx = page.begin();
    tx.set_position(7);
    tx.set_serial(8);
    tx.set_sequence(9);
    tx.set_continued(true);
    tx.set_bos(false);
    tx.set_eos(true);
    let edited = tx.commit();
    let view = edited.as_ref();
    assert_eq!((view.position(), view.serial(), view.sequence()), (7, 8, 9));
    assert_eq!((view.continued(), view.bos(), view.eos()), (true, false, true));
    assert_eq!(view.body(), page.body());
    assert_eq!(edited.as_u8_slice().len(), bytes.len());
    assert_eq!(&edited.as_u8_slice()[22..26], &reference_page_crc(edited.as_u8_slice()).to_le_bytes());
    let expected = raw_page(0x05, 7, 8, 9, &[b"some packet", &[9u8; 255]]);
    assert_eq!(edited.as_u8_slice(), &expected[..]);
}

#[test]
fn track_is_exactly_pages_laid_end_to_end() {
    let sample = sample_ogg();
    let track = OggTrack::new(&sample).unwrap();
    assert_eq!(track.as_u8_slice(), &sample[..]);
    let mut pages = track.pages();
    for expected in sample_pages() {
        assert_eq!(pages.next().unwrap().as_u8_slice(), &expected[..]);
    }
    assert!(pages.next().is_none());
    assert!(pages.next().is_none());

    assert!(OggTrack::new(&[]).is_ok());
    assert!(OggTrackBuf::new(Vec::new()).is_ok());

    let mut trailing = sample.clone();
    trailing.push(0);
    assert!(matches!(OggTrack::new(&trailing), Err(OggPageCheckError::TooShort)));
    assert!(matches!(
        OggTrack::new(&sample[..sample.len() - 1]),
        Err(OggPageCheckError::TooShort)
    ));
    let mut garbage = sample.clone();
    garbage.extend_from_slice(&[b'x'; 40]);
    assert!(matches!(OggTrackBuf::new(garbage), Err(OggPageCheckError::BadCapture)));
    let mut tampered = sample.clone();
    let at = sample_pages()[0].len() + 30;
    tampered[at] ^= 0x01;
    assert!(matches!(OggTrackBuf::new(tampered), Err(OggPageCheckError::BadCrc)));

    let owned = OggTrackBuf::new(sample.clone()).unwrap();
    assert_eq!(owned.as_u8_slice(), &sample[..]);
    assert_eq!(owned.clone().into_inner(), sample);
}

#[test]
fn builder_lays_out_packets_with_lacing() {
    let mut builder = OggBuilder::new();
    builder.add_packet(b"first");
    builder.add_packet(&[1u8; 255]);
    builder.add_packet(&[2u8; 600]);
    builder.add_packet(b"");
    builder.position = 99;
    builder.serial = 5;
    builder.sequence = 6;
    builder.bos = true;
    let page = builder.build().unwrap();
    let expected = raw_page(0x02, 99, 5, 6, &[b"first", &[1u8; 255], &[2u8; 600], b""]);
    assert_eq!(page.as_u8_slice(), &expected[..]);
    assert_eq!(page.as_ref().segments(), &[5u8, 255, 0, 255, 255, 90, 0]);
    let view = page.as_ref();
    let mut packets = view.raw_packets();
    assert_eq!(packets.next().unwrap(), b"first");
    assert_eq!(packets.next().unwrap(), &[1u8; 255][..]);
    assert_eq!(packets.next().unwrap(), &[2u8; 600][..]);
    assert_eq!(packets.next().unwrap(), b"");
    assert!(packets.next().is_none());
}

#[test]
fn builder_leaves_last_packet_open() {
    let mut builder = OggBuilder::new();
    builder.add_packet(b"closed");
    builder.add_packet(&[3u8; 510]);
    builder.open_ended = true;
    let page = builder.build().unwrap();
    assert_eq!(page.as_ref().segments(), &[6u8, 255, 255]);
    assert!(page.as_ref().open_ended());
    assert!(OggPage::new(page.as_u8_slice()).is_ok());

    let mut builder = OggBuilder::new();
    builder.add_packet(b"not a multiple");
    builder.open_ended = true;
    assert!(matches!(builder.build(), Err(OggBuildError::BadOpenPacket)));
    let mut builder = OggBuilder::new();
    builder.open_ended = true;
    assert!(matches!(builder.build(), Err(OggBuildError::BadOpenPacket)));
}

#[test]
fn builder_refuses_more_than_255_segments() {
    let mut builder = OggBuilder::new();
    for _ in 0..255 {
        builder.add_packet(b"x");
    }
    assert!(builder.build().is_ok());
    builder.add_packet(b"x");
    assert!(matches!(builder.build(), Err(OggBuildError::TooManySegments)));
    let mut builder = OggBuilder::new();
    builder.add_packet(&[0u8; 255 * 255]);
    assert!(matches!(builder.build(), Err(OggBuildError::TooManySegments)));
}

#[test]
fn comment_rewrite_preserves_audio() {
    let sample = sample_ogg();
    let track = OggTrack::new(&sample).unwrap();
    let new_comments = Comments {
        vendor: "Ireul Core".to_string(),
        comments: vec![("TITLE".to_string(), "Other".to_string())],
    };
    let packet = new_comments.build_comment_packet().unwrap();
    let rewritten = rewrite_comments(&track, &packet).unwrap();
    assert!(OggTrack::new(rewritten.as_u8_slice()).is_ok());

    let before = sample_pages();
    let mut pages = rewritten.pages();
    for (index, old) in before.iter().enumerate() {
        let new = pages.next().unwrap();
        let old = OggPage::new(old).unwrap();
        assert_eq!(new.position(), old.position());
        assert_eq!(new.serial(), old.serial());
        assert_eq!(new.sequence(), old.sequence());
        assert_eq!((new.bos(), new.eos(), new.continued()), (old.bos(), old.eos(), old.continued()));
        if index != 1 {
            assert_eq!(new.as_u8_slice(), old.as_u8_slice());
        }
        let mut new_packets = new.raw_packets();
        let mut old_packets = old.raw_packets();
        loop {
            match (new_packets.next(), old_packets.next()) {
                (Some(n), Some(o)) => {
                    if is_comment_packet(o) {
                        assert_eq!(n, &packet[..]);
                    } else {
                        assert_eq!(n, o);
                    }
                }
                (None, None) => break,
                _ => panic!("the number of packets changed"),
            }
        }
        assert_eq!(
            &new.as_u8_slice()[22..26],
            &reference_page_crc(new.as_u8_slice()).to_le_bytes()
        );
    }
    assert!(pages.next().is_none());

    let found = VorbisHeader::find_comments(rewritten.pages()).unwrap();
    let comments = found.comments().unwrap();
    assert_eq!(comments.vendor, "Ireul Core");
    assert_eq!(comments.comments, vec![("TITLE".to_string(), "Other".to_string())]);
}

#[test]
fn comment_rewrite_keeps_an_open_packet_open() {
    let comments = comment_header("v", &[("A", "b")]);
    let mut builder = OggBuilder::new();
    builder.add_packet(&comments);
    builder.add_packet(&[5u8; 255]);
    builder.open_ended = true;
    builder.bos = true;
    let first = builder.build().unwrap();
    let mut builder = OggBuilder::new();
    builder.add_packet(&[6u8; 10]);
    builder.continued = true;
    builder.eos = true;
    builder.sequence = 1;
    let second = builder.build().unwrap();
    let mut bytes = first.as_u8_slice().to_vec();
    bytes.extend_from_slice(second.as_u8_slice());
    let track = OggTrack::new(&bytes).unwrap();

    let packet = comment_header("Ireul Core", &[]);
    let rewritten = rewrite_comments(&track, &packet).unwrap();
    let mut pages = rewritten.pages();
    let page = pages.next().unwrap();
    assert!(page.open_ended());
    let mut packets = page.raw_packets();
    assert_eq!(packets.next().unwrap(), &packet[..]);
    assert_eq!(packets.next().unwrap(), &[5u8; 255][..]);
    assert!(packets.next().is_none());
    assert_eq!(pages.next().unwrap().as_u8_slice(), second.as_u8_slice());
}

#[test]
fn comment_rewrite_fails_when_the_page_overflows() {
    let comments = comment_header("v", &[]);
    let mut packets: Vec<&[u8]> = vec![&comments];
    for _ in 0..254 {
        packets.push(b"x");
    }
    let bytes = raw_page(0x06, 0, 1, 0, &packets);
    let track = OggTrack::new(&bytes).unwrap();
    let small = comment_header("w", &[]);
    assert!(rewrite_comments(&track, &small).is_some());
    let large = comment_header(&"w".repeat(300), &[]);
    assert!(rewrite_comments(&track, &large).is_none());
}

#[test]
fn builder_lays_out_as_many_pages_as_needed() {
    let mut builder = OggBuilder::new();
    builder.add_packet(b"head");
    builder.add_packet(&[7u8; 255 * 300 + 5]);
    builder.add_packet(b"tail");
    builder.position = 11;
    builder.serial = 12;
    builder.sequence = u32::MAX;
    builder.bos = true;
    builder.eos = true;
    assert!(matches!(builder.build(), Err(OggBuildError::TooManySegments)));
    let pages = builder.build_pages().unwrap();
    assert_eq!(pages.len(), 2);
    let first = pages[0].as_ref();
    let second = pages[1].as_ref();
    assert_eq!(first.segments().len(), 255);
    assert_eq!(second.segments().len(), 1 + 301 + 1 - 255);
    assert_eq!((first.bos(), first.eos(), first.continued()), (true, false, false));
    assert_eq!((second.bos(), second.eos(), second.continued()), (false, true, true));
    assert_eq!((first.sequence(), second.sequence()), (u32::MAX, 0));
    assert_eq!((first.position(), second.position()), (11, 11));
    assert_eq!((first.serial(), second.serial()), (12, 12));
    assert!(first.open_ended());
    let mut body = first.body().to_vec();
    body.extend_from_slice(second.body());
    let mut expected = b"head".to_vec();
    expected.extend_from_slice(&[7u8; 255 * 300 + 5]);
    expected.extend_from_slice(b"tail");
    assert_eq!(body, expected);
    let mut track = pages[0].as_u8_slice().to_vec();
    track.extend_from_slice(pages[1].as_u8_slice());
    assert!(OggTrack::new(&track).is_ok());
    assert_eq!(
        &pages[1].as_u8_slice()[22..26],
        &reference_page_crc(pages[1].as_u8_slice()).to_le_bytes()
    );

    let mut small = OggBuilder::new();
    small.add_packet(b"one");
    small.eos = true;
    let pages = small.build_pages().unwrap();
    assert_eq!(pages.len(), 1);
    assert_eq!(pages[0].as_u8_slice(), small.build().unwrap().as_u8_slice());
    let empty = OggBuilder::new().build_pages().unwrap();
    assert_eq!(empty.len(), 1);
    assert_eq!(empty[0].as_u8_slice().len(), 27);

    let mut exact = OggBuilder::new();
    for _ in 0..510 {
        exact.add_packet(b"");
    }
    let pages = exact.build_pages().unwrap();
    assert_eq!(pages.len(), 2);
    assert!(!pages[1].as_ref().continued());
    let mut open = OggBuilder::new();
    open.open_ended = true;
    assert!(matches!(open.build_pages(), Err(OggBuildError::BadOpenPacket)));
}

#[test]
fn resync_finds_the_next_capture_pattern() {
    assert_eq!(resync(b""), Err(PopError::MoreData));
    assert_eq!(resync(b"Ogg"), Err(PopError::MoreData));
    assert_eq!(resync(b"OggS"), Ok(0));
    assert_eq!(resync(b"xOggS"), Ok(1));
    assert_eq!(resync(b"OgOggOggSOggS"), Ok(5));
    assert_eq!(resync(b"\0\0\0OggS"), Ok(3));
    assert_eq!(resync(b"no page in here, OggX OgGS"), Err(PopError::MoreData));
    let mut stream = b"lost bytes".to_vec();
    let page = raw_page(0, 1, 2, 3, &[b"payload"]);
    stream.extend_from_slice(&page);
    stream.extend_from_slice(&page[..10]);
    let at = resync(&stream).unwrap();
    assert_eq!(at, 10);
    let popped = pop_page(&stream[at..]).unwrap();
    assert_eq!(popped.as_u8_slice(), &page[..]);
    let rest = &stream[at + page.len()..];
    assert_eq!(resync(rest), Ok(0));
    assert_eq!(pop_page(rest).err(), Some(PopError::MoreData));
    assert_eq!(pop_page(&page[..page.len() - 1]).err(), Some(PopError::MoreData));
    assert_eq!(
        pop_page(b"lost bytes and more of them, enough").err(),
        Some(PopError::OggPageError(OggPageCheckError::BadCapture))
    );
    let mut bad = page.clone();
    bad[30] ^= 1;
    assert_eq!(pop_page(&bad).err(), Some(PopError::OggPageError(OggPageCheckError::BadCrc)));
    bad[4] = 9;
    assert_eq!(pop_page(&bad).err(), Some(PopError::OggPageError(OggPageCheckError::BadVersion)));
}
