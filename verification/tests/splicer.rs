use ireul::page::{OggPage, OggPageBuf};
use ireul::proxy::{
    EnqueueTrackError, EnqueueTrackRequest, FastForward, FastForwardRequest,
    ReplaceFallbackError, ReplaceFallbackRequest, StatusRequest,
};
use ireul::queue::Handle;
use ireul::splicer::{
    check_sample_rate, history_cleanup, page_starts_track, prepare_track, update_serial,
    validate_comment_section, validate_identification_section, validate_positions, Core,
    SPLICER_HISTORY_CAPACITY,
};
use ireul::track::{OggTrack, OggTrackBuf};
use ireul::vorbis::VorbisHeader;

fn reference_crc(data: &[u8]) -> u32 {
    let mut crc: u32 = 0;
    for &byte in data {
        crc ^= (byte as u32) << 24;
        for _ in 0..8 {
            crc = if crc & 0x8000_0000 != 0 { (crc << 1) ^ 0x04C1_1DB7 } else { crc << 1 };
        }
    }
    crc
}

fn raw_page(flags: u8, granule: u64, serial: u32, sequence: u32, packets: &[&[u8]]) -> Vec<u8> {
    let mut table = Vec::new();
    let mut body = Vec::new();
    for packet in packets {
        for _ in 0..packet.len() / 255 {
            table.push(255u8);
        }
        table.push((packet.len() % 255) as u8);
        body.extend_from_slice(packet);
    }
    let mut page = Vec::new();
    page.extend_from_slice(b"OggS");
    page.push(0);
    page.push(flags);
    page.extend_from_slice(&granule.to_le_bytes());
    page.extend_from_slice(&serial.to_le_bytes());
    page.extend_from_slice(&sequence.to_le_bytes());
    page.extend_from_slice(&[0, 0, 0, 0]);
    page.push(table.len() as u8);
    page.extend_from_slice(&table);
    page.extend_from_slice(&body);
    let crc = reference_crc(&page);
    page[22..26].copy_from_slice(&crc.to_le_bytes());
    page
}

fn id_header(rate: u32) -> Vec<u8> {
    let mut p = vec![0x01];
    p.extend_from_slice(b"vorbis");
    p.extend_from_slice(&0u32.to_le_bytes());
    p.push(2);
    p.extend_from_slice(&rate.to_le_bytes());
    p.extend_from_slice(&[0u8; 12]);
    p.push(0xb8);
    p.push(0x01);
    p
}

fn comment_header(vendor: &str, comments: &[(&str, &str)]) -> Vec<u8> {
    let mut p = vec![0x03];
    p.extend_from_slice(b"vorbis");
    p.extend_from_slice(&(vendor.len() as u32).to_le_bytes());
    p.extend_from_slice(vendor.as_bytes());
    p.extend_from_slice(&(comments.len() as u32).to_le_bytes());
    for (k, v) in comments {
        let entry = format!("{}={}", k, v);
        p.extend_from_slice(&(entry.len() as u32).to_le_bytes());
        p.extend_from_slice(entry.as_bytes());
    }
    p.push(0x01);
    p
}

// A one-page track: both headers on a page that begins and ends the stream.
fn silent_fallback(rate: u32) -> Vec<u8> {
    raw_page(0x06, 0, 0x5555, 0, &[&id_header(rate), &comment_header("silence", &[("TITLE", "dead air")])])
}

// A three-page track.
fn three_pages(rate: u32, title: &str) -> Vec<u8> {
    let comments = comment_header("enc", &[("ARTIST", "Band"), ("TITLE", title)]);
    let mut bytes = raw_page(0x02, 0, 0x7777, 0, &[&id_header(rate)]);
    bytes.extend_from_slice(&raw_page(0x00, 0, 0x7777, 1, &[&comments, b"\x05vorbis-setup"]));
    bytes.extend_from_slice(&raw_page(0x04, 960, 0x7777, 2, &[&[3u8; 90]]));
    bytes
}

// A five-page track with a packet that spans pages.
fn five_pages(rate: u32) -> Vec<u8> {
    let comments = comment_header("enc", &[("TITLE", "long")]);
    let mut bytes = raw_page(0x02, 0, 0x9999, 0, &[&id_header(rate)]);
    bytes.extend_from_slice(&raw_page(0x00, 0, 0x9999, 1, &[&comments]));
    bytes.extend_from_slice(&raw_page(0x00, 1000, 0x9999, 2, &[&[1u8; 10]]));
    bytes.extend_from_slice(&raw_page(0x00, 2000, 0x9999, 3, &[&[2u8; 10]]));
    bytes.extend_from_slice(&raw_page(0x04, 3000, 0x9999, 4, &[&[3u8; 10]]));
    bytes
}

fn rng() -> rand::ChaChaRng {
    rand::ChaChaRng::new_unseeded()
}

fn splicer(capacity: usize) -> Core {
    Core::new(48000, capacity, rng(), silent_fallback(48000)).unwrap()
}

fn enqueue(track: Vec<u8>) -> EnqueueTrackRequest {
    EnqueueTrackRequest { track, metadata: None }
}

fn titles(splicer: &Core) -> Vec<String> {
    splicer.queue_status(StatusRequest).unwrap().upcoming.iter().map(|i| i.title.clone()).collect()
}

#[test]
fn empty_start_one_enqueue_fast_forward() {
    let mut relay = splicer(20);
    assert_eq!(relay.sample_rate(), 48000);
    assert!(!relay.is_playing_offline());
    // with nothing in the queue the fallback track plays, under the first serial
    let tick = relay.tick_at(100, 0);
    assert_eq!(tick.page.as_ref().serial(), 0);
    assert!(tick.page.as_ref().bos());
    assert!(relay.is_playing_offline());
    let expected = OggPage::new(&silent_fallback(48000)).unwrap().set_serial(0);
    assert_eq!(tick.page.as_u8_slice(), expected.as_u8_slice());

    let handle = relay.enqueue_track(enqueue(three_pages(48000, "song"))).unwrap();
    assert!(handle != Handle(0));

    let tick = relay.tick_at(200, 20);
    assert_eq!(tick.page.as_ref().serial(), 1);
    assert!(tick.page.as_ref().bos());
    assert!(!relay.is_playing_offline());
    let first = OggPage::new(&three_pages(48000, "song")).unwrap().set_serial(1);
    assert_eq!(tick.page.as_u8_slice(), first.as_u8_slice());
    let status = relay.queue_status(StatusRequest).unwrap();
    assert_eq!(status.upcoming.len(), 1);
    assert_eq!(status.upcoming[0].handle, handle);
    assert_eq!(status.upcoming[0].started_at, Some(200));
}

#[test]
fn enqueue_while_fallback_plays_cuts_to_its_end() {
    let mut relay = Core::new(48000, 20, rng(), five_pages(48000)).unwrap();
    let first = relay.tick_at(0, 0).page;
    assert!(first.as_ref().bos());
    let second = relay.tick_at(0, 0).page;
    assert_eq!(second.as_ref().sequence(), 1);
    relay.enqueue_track_as(77, enqueue(three_pages(48000, "song"))).unwrap();
    // the end of the fallback track follows the page sent last
    let closing = relay.tick_at(0, 0).page;
    assert!(closing.as_ref().eos());
    assert_eq!(closing.as_ref().serial(), 0);
    assert_eq!(closing.as_ref().sequence(), 2);
    assert_eq!(closing.as_ref().position(), second.as_ref().position());
    assert!(OggPage::new(closing.as_u8_slice()).is_ok());
    let expected = raw_page(0x04, 0, 0, 2, &[&[3u8; 10]]);
    assert_eq!(closing.as_u8_slice(), &expected[..]);
    // and then the new track begins under the next serial
    let next = relay.tick_at(5, 0).page;
    assert!(next.as_ref().bos());
    assert_eq!(next.as_ref().serial(), 1);
    assert_eq!(next.as_ref().sequence(), 0);
}

#[test]
fn enqueue_with_wrong_sample_rate() {
    let mut relay = splicer(20);
    relay.tick_at(0, 0);
    let before = titles(&relay);
    assert_eq!(
        relay.enqueue_track(enqueue(three_pages(44100, "song"))),
        Err(EnqueueTrackError::BadSampleRate)
    );
    assert_eq!(titles(&relay), before);
    // no serial rotation: the fallback track comes again under the next serial
    let tick = relay.tick_at(0, 0);
    assert_eq!(tick.page.as_ref().serial(), 1);
    assert!(relay.is_playing_offline());
}

#[test]
fn queue_status_shape() {
    let mut relay = splicer(20);
    let current = relay.enqueue_track_as(1, enqueue(three_pages(48000, "current"))).unwrap();
    relay.tick_at(1000, 0);
    relay.tick_at(1000, 0);
    let third = relay.tick_at(1000, 0);
    assert_eq!(third.page.as_ref().position(), 960);
    let t1 = relay.enqueue_track_as(2, enqueue(three_pages(48000, "t1"))).unwrap();
    let t2 = relay.enqueue_track_as(3, enqueue(three_pages(48000, "t2"))).unwrap();
    let status = relay.queue_status(StatusRequest).unwrap();
    let handles: Vec<Handle> = status.upcoming.iter().map(|i| i.handle).collect();
    assert_eq!(handles, vec![current, t1, t2]);
    assert!(status.history.is_empty());
    assert_eq!(status.upcoming[0].title, "current");
    assert_eq!(status.upcoming[0].artist, "Band");
    assert_eq!(status.upcoming[0].sample_position, 960);
    assert_eq!(status.upcoming[0].sample_count, 960);
    assert_eq!(status.upcoming[0].started_at, Some(1000));
    assert_eq!(status.upcoming[1].sample_position, 0);
    assert_eq!(status.upcoming[1].started_at, None);
    // when the next track begins, the one that played goes to the history
    relay.tick_at(2000, 0);
    let status = relay.queue_status(StatusRequest).unwrap();
    let handles: Vec<Handle> = status.upcoming.iter().map(|i| i.handle).collect();
    assert_eq!(handles, vec![t1, t2]);
    assert_eq!(status.history.len(), 1);
    assert_eq!(status.history[0].handle, current);
    assert_eq!(status.history[0].sample_position, 960);
}

#[test]
fn crc_tampering_is_an_invalid_track() {
    let mut relay = splicer(20);
    let mut bytes = three_pages(48000, "song");
    bytes[24] ^= 0x01;
    assert_eq!(relay.enqueue_track(enqueue(bytes)), Err(EnqueueTrackError::InvalidTrack));
    assert!(titles(&relay).is_empty());
}

#[test]
fn invalid_tracks_are_refused_in_order() {
    let mut relay = splicer(20);
    let refused = |splicer: &mut Core, bytes: Vec<u8>| splicer.enqueue_track(enqueue(bytes));
    assert_eq!(refused(&mut relay, Vec::new()), Err(EnqueueTrackError::InvalidTrack));
    assert_eq!(refused(&mut relay, b"not ogg at all, but long enough".to_vec()), Err(EnqueueTrackError::InvalidTrack));
    let mut cut = three_pages(48000, "t");
    cut.pop();
    assert_eq!(refused(&mut relay, cut), Err(EnqueueTrackError::InvalidTrack));
    // positions do not start at zero
    let mut late = raw_page(0x02, 5, 1, 0, &[&id_header(48000)]);
    late.extend_from_slice(&raw_page(0x04, 6, 1, 1, &[&comment_header("v", &[])]));
    assert_eq!(refused(&mut relay, late), Err(EnqueueTrackError::InvalidTrack));
    // positions go back, and the sample rate is wrong as well
    let mut back = raw_page(0x02, 0, 1, 0, &[&id_header(44100)]);
    back.extend_from_slice(&raw_page(0x00, 10, 1, 1, &[&comment_header("v", &[])]));
    back.extend_from_slice(&raw_page(0x04, 9, 1, 2, &[b"audio"]));
    assert_eq!(refused(&mut relay, back), Err(EnqueueTrackError::InvalidTrack));
    // no comment header
    let no_comments = raw_page(0x06, 0, 1, 0, &[&id_header(48000)]);
    assert_eq!(refused(&mut relay, no_comments), Err(EnqueueTrackError::InvalidTrack));
    // no identification header
    let no_id = raw_page(0x06, 0, 1, 0, &[&comment_header("v", &[])]);
    assert_eq!(refused(&mut relay, no_id), Err(EnqueueTrackError::InvalidTrack));
    assert!(titles(&relay).is_empty());
    assert!(matches!(
        Core::new(48000, 1, rng(), silent_fallback(44100)),
        Err(EnqueueTrackError::BadSampleRate)
    ));
    assert!(matches!(Core::new(48000, 1, rng(), Vec::new()), Err(EnqueueTrackError::InvalidTrack)));
}

#[test]
fn enqueue_is_full_at_capacity() {
    let mut relay = splicer(2);
    assert!(relay.enqueue_track(enqueue(three_pages(48000, "a"))).is_ok());
    assert!(relay.enqueue_track(enqueue(three_pages(48000, "b"))).is_ok());
    assert_eq!(
        relay.enqueue_track(enqueue(three_pages(48000, "c"))),
        Err(EnqueueTrackError::Full)
    );
    assert_eq!(titles(&relay), vec!["a", "b"]);
    assert_eq!(
        relay.enqueue_track_as(5, enqueue(three_pages(48000, "c"))),
        Err(EnqueueTrackError::Full)
    );
    relay.tick_at(0, 0);
    assert_eq!(relay.enqueue_track_as(0, enqueue(three_pages(48000, "c"))), Err(EnqueueTrackError::Full));
    assert_eq!(relay.enqueue_track_as(5, enqueue(three_pages(48000, "c"))), Ok(Handle(5)));
    assert_eq!(relay.enqueue_track_as(5, enqueue(three_pages(48000, "d"))), Err(EnqueueTrackError::Full));
}

#[test]
fn metadata_takes_the_place_of_the_comments() {
    let mut relay = splicer(20);
    let request = EnqueueTrackRequest {
        track: three_pages(48000, "old title"),
        metadata: Some(vec![
            ("TITLE".to_string(), "new title".to_string()),
            ("ALBUM".to_string(), "new album".to_string()),
        ]),
    };
    relay.enqueue_track(request).unwrap();
    let status = relay.queue_status(StatusRequest).unwrap();
    assert_eq!(status.upcoming[0].title, "new title");
    assert_eq!(status.upcoming[0].album, "new album");
    assert_eq!(status.upcoming[0].artist, "");
    let original = three_pages(48000, "old title");
    let source = OggTrack::new(&original).unwrap();
    let mut source_pages = source.pages();
    let first = relay.tick_at(0, 0).page;
    assert_eq!(first.as_u8_slice(), source_pages.next().unwrap().set_serial(0).as_u8_slice());
    let second = relay.tick_at(0, 0).page;
    let old_second = source_pages.next().unwrap();
    assert!(second.as_u8_slice() != old_second.set_serial(0).as_u8_slice());
    let view = second.as_ref();
    let mut packets = view.raw_packets();
    let header = VorbisHeader::new(packets.next().unwrap()).unwrap();
    let comments = header.comments().unwrap();
    assert_eq!(comments.vendor, "Ireul Core");
    assert_eq!(comments.comments.len(), 2);
    assert_eq!(packets.next().unwrap(), b"\x05vorbis-setup");
    assert!(packets.next().is_none());
    let third = relay.tick_at(0, 0).page;
    assert_eq!(third.as_u8_slice(), source_pages.next().unwrap().set_serial(0).as_u8_slice());
    let (ready, kept) = (
        prepare_track(three_pages(48000, "x"), &Some(vec![]), 48000).unwrap(),
        prepare_track(three_pages(48000, "x"), &None, 48000).unwrap(),
    );
    assert_eq!(kept.as_u8_slice(), &three_pages(48000, "x")[..]);
    assert!(ready.as_u8_slice() != kept.as_u8_slice());
}

#[test]
fn fast_forward_leaves_the_closing_page() {
    let mut relay = splicer(20);
    relay.enqueue_track_as(9, EnqueueTrackRequest { track: five_pages(48000), metadata: None })
        .unwrap();
    relay.enqueue_track_as(10, enqueue(three_pages(48000, "next"))).unwrap();
    let first = relay.tick_at(0, 0).page;
    assert_eq!((first.as_ref().serial(), first.as_ref().sequence()), (0, 0));
    let second = relay.tick_at(0, 0).page;
    let third = relay.tick_at(0, 0).page;
    assert_eq!((third.as_ref().position(), third.as_ref().sequence()), (1000, 2));
    assert_eq!(second.as_ref().sequence(), 1);
    assert_eq!(relay.fast_forward(FastForwardRequest { kind: FastForward::TrackBoundary }), Ok(()));
    let closing = relay.tick_at(0, 0).page;
    let expected = raw_page(0x04, 1000, 0, 3, &[&[3u8; 10]]);
    assert_eq!(closing.as_u8_slice(), &expected[..]);
    let next = relay.tick_at(0, 0).page;
    let source = three_pages(48000, "next");
    assert_eq!(next.as_u8_slice(), OggPage::new(&source).unwrap().set_serial(1).as_u8_slice());
    // a second fast-forward within the new track
    assert_eq!(relay.fast_forward_track_boundary(), Ok(()));
    let closing = relay.tick_at(0, 0).page;
    assert!(closing.as_ref().eos());
    assert_eq!((closing.as_ref().serial(), closing.as_ref().sequence()), (1, 1));
    assert_eq!(closing.as_ref().position(), 0);
    // with an empty buffer there is nothing to skip
    assert_eq!(relay.fast_forward_track_boundary(), Ok(()));
    let fallback = relay.tick_at(0, 0).page;
    assert_eq!(fallback.as_ref().serial(), 2);
    assert!(relay.is_playing_offline());
}

#[test]
fn replace_fallback_takes_effect_at_the_next_refill() {
    let mut relay = splicer(20);
    let old = relay.tick_at(0, 0).page;
    assert_eq!(old.as_u8_slice().len(), silent_fallback(48000).len());
    assert_eq!(
        relay.replace_fallback(ReplaceFallbackRequest { track: three_pages(44100, "f"), metadata: None }),
        Err(ReplaceFallbackError::BadSampleRate)
    );
    assert_eq!(
        relay.replace_fallback(ReplaceFallbackRequest { track: vec![1, 2, 3], metadata: None }),
        Err(ReplaceFallbackError::InvalidTrack)
    );
    let again = relay.tick_at(0, 0).page;
    assert_eq!(again.as_u8_slice().len(), old.as_u8_slice().len());
    assert_eq!(
        relay.replace_fallback(ReplaceFallbackRequest {
            track: three_pages(48000, "f"),
            metadata: Some(vec![("TITLE".to_string(), "fallback".to_string())]),
        }),
        Ok(())
    );
    let new = relay.tick_at(0, 0).page;
    assert_eq!(new.as_ref().serial(), 2);
    let source = three_pages(48000, "f");
    assert_eq!(new.as_u8_slice(), OggPage::new(&source).unwrap().set_serial(2).as_u8_slice());
    assert!(titles(&relay).is_empty());
}

#[test]
fn tick_waits_by_the_granule_position() {
    let mut relay = splicer(20);
    relay.enqueue_track_as(1, enqueue(five_pages(48000))).unwrap();
    assert_eq!(relay.tick_at(0, 0).wait_ms, 0);
    assert_eq!(relay.tick_at(0, 0).wait_ms, 0);
    assert_eq!(relay.tick_at(0, 0).wait_ms, 1000 * 1000 / 48000);
    assert_eq!(relay.tick_at(0, 30).wait_ms, 2000 * 1000 / 48000 - 30);
    assert_eq!(relay.tick_at(0, 100).wait_ms, 0);
    // the fallback track starts at zero again, where the stream has come to
    assert_eq!(relay.tick_at(0, 0).wait_ms, 3000 * 1000 / 48000);
    let by_the_clock = relay.tick();
    assert!(by_the_clock.wait_ms <= 3000 * 1000 / 48000);
    assert_eq!(by_the_clock.page.as_ref().serial(), 2);
}

#[test]
fn validation_steps() {
    let good = three_pages(48000, "t");
    let track = OggTrack::new(&good).unwrap();
    assert_eq!(validate_positions(&track), Ok(()));
    assert_eq!(validate_comment_section(&track), Ok(()));
    assert_eq!(validate_identification_section(&track), Ok(()));
    assert_eq!(check_sample_rate(48000, &track), Ok(()));
    assert_eq!(check_sample_rate(44100, &track), Err(()));
    let empty = OggTrack::new(&[]).unwrap();
    assert_eq!(validate_positions(&empty), Ok(()));
    assert_eq!(validate_comment_section(&empty), Err(()));
    assert_eq!(check_sample_rate(48000, &empty), Err(()));
    let mut equal = raw_page(0x02, 0, 1, 0, &[b"a"]);
    equal.extend_from_slice(&raw_page(0x00, 7, 1, 1, &[b"b"]));
    equal.extend_from_slice(&raw_page(0x04, 7, 1, 2, &[b"c"]));
    assert_eq!(validate_positions(&OggTrack::new(&equal).unwrap()), Ok(()));
    let mut back = raw_page(0x02, 0, 1, 0, &[b"a"]);
    back.extend_from_slice(&raw_page(0x00, 7, 1, 1, &[b"b"]));
    back.extend_from_slice(&raw_page(0x04, 6, 1, 2, &[b"c"]));
    assert_eq!(validate_positions(&OggTrack::new(&back).unwrap()), Err(()));
    let late = raw_page(0x06, 1, 1, 0, &[b"a"]);
    assert_eq!(validate_positions(&OggTrack::new(&late).unwrap()), Err(()));
    assert!(matches!(prepare_track(back, &None, 48000), Err(EnqueueTrackError::InvalidTrack)));
}

#[test]
fn serial_is_set_on_every_page() {
    let source = five_pages(48000);
    let track = OggTrack::new(&source).unwrap();
    let updated: OggTrackBuf = update_serial(0xabcd_ef01, &track);
    assert_eq!(updated.as_u8_slice().len(), source.len());
    let mut old = track.pages();
    let mut new = updated.pages();
    while let Some(page) = new.next() {
        let before = old.next().unwrap();
        assert_eq!(page.serial(), 0xabcd_ef01);
        assert_eq!(page.position(), before.position());
        assert_eq!(page.sequence(), before.sequence());
        assert_eq!(page.body(), before.body());
        assert_eq!(page.as_u8_slice(), before.set_serial(0xabcd_ef01).as_u8_slice());
    }
    assert!(old.next().is_none());
}

#[test]
fn page_that_starts_a_track() {
    let source = three_pages(48000, "t");
    let track = OggTrack::new(&source).unwrap();
    let mut pages = track.pages();
    assert!(page_starts_track(&pages.next().unwrap()));
    assert!(!page_starts_track(&pages.next().unwrap()));
    assert!(!page_starts_track(&pages.next().unwrap()));
    let short = OggPageBuf::new(raw_page(0, 0, 0, 0, &[b"\x01vorbi"])).unwrap();
    assert!(!page_starts_track(&short.as_ref()));
}

#[test]
fn history_is_cut_to_its_capacity() {
    let mut relay = splicer(1);
    for round in 0..SPLICER_HISTORY_CAPACITY + 5 {
        relay.enqueue_track_as(1 + round as u64, enqueue(silent_fallback(48000))).unwrap();
        relay.tick_at(round as i64, 0);
    }
    relay.tick_at(0, 0);
    let status = relay.queue_status(StatusRequest).unwrap();
    assert_eq!(status.history.len(), SPLICER_HISTORY_CAPACITY);
    assert_eq!(status.history[0].handle, Handle(1));
    assert_eq!(status.history[0].started_at, Some(0));
    assert_eq!(status.history[19].handle, Handle(20));
    let mut short = status.history;
    short.truncate(3);
    history_cleanup(&mut short);
    assert_eq!(short.len(), 3);
}
