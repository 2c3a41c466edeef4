use ireul::queue::{
    eq_ignore_ascii_case, Handle, HandleAllocator, PlayQueue, PlayQueueError, Track,
    DRAW_LIMIT, HISTORY_CAPACITY,
};
use ireul::track::OggTrackBuf;

fn reference_crc(data: &[u8]) -> u32 {
    let mut crc: u32 = 0;
    for &byte in data {
        crc ^= (byte as u32) << 24;
        for _ in 0..8 {
            crc = if crc & 0x8000_0000 != 0 { (crc << 1) ^ 0x04C1_1DB7 } else { crc << 1 };
        }
    }
    crc
}

fn raw_page(flags: u8, granule: u64, serial: u32, sequence: u32, packets: &[&[u8]]) -> Vec<u8> {
    let mut table = Vec::new();
    let mut body = Vec::new();
    for packet in packets {
        for _ in 0..packet.len() / 255 {
            table.push(255u8);
        }
        table.push((packet.len() % 255) as u8);
        body.extend_from_slice(packet);
    }
    let mut page = Vec::new();
    page.extend_from_slice(b"OggS");
    page.push(0);
    page.push(flags);
    page.extend_from_slice(&granule.to_le_bytes());
    page.extend_from_slice(&serial.to_le_bytes());
    page.extend_from_slice(&sequence.to_le_bytes());
    page.extend_from_slice(&[0, 0, 0, 0]);
    page.push(table.len() as u8);
    page.extend_from_slice(&table);
    page.extend_from_slice(&body);
    let crc = reference_crc(&page);
    page[22..26].copy_from_slice(&crc.to_le_bytes());
    page
}

fn id_header(rate: u32) -> Vec<u8> {
    let mut p = vec![0x01];
    p.extend_from_slice(b"vorbis");
    p.extend_from_slice(&0u32.to_le_bytes());
    p.push(2);
    p.extend_from_slice(&rate.to_le_bytes());
    p.extend_from_slice(&[0u8; 12]);
    p.push(0xb8);
    p.push(0x01);
    p
}

fn comment_header(vendor: &str, comments: &[(&str, &str)]) -> Vec<u8> {
    let mut p = vec![0x03];
    p.extend_from_slice(b"vorbis");
    p.extend_from_slice(&(vendor.len() as u32).to_le_bytes());
    p.extend_from_slice(vendor.as_bytes());
    p.extend_from_slice(&(comments.len() as u32).to_le_bytes());
    for (k, v) in comments {
        let entry = format!("{}={}", k, v);
        p.extend_from_slice(&(entry.len() as u32).to_le_bytes());
        p.extend_from_slice(entry.as_bytes());
    }
    p.push(0x01);
    p
}

fn track(title: &str, last_position: u64) -> OggTrackBuf {
    let comments = comment_header(
        "vendor",
        &[("TITLE", "first title"), ("artist", "Somebody"), ("Album", "Records"), ("title", title)],
    );
    let mut bytes = raw_page(0x02, 0, 7, 0, &[&id_header(48000)]);
    bytes.extend_from_slice(&raw_page(0x00, 0, 7, 1, &[&comments]));
    bytes.extend_from_slice(&raw_page(0x00, last_position + 5, 7, 2, &[&[1u8; 30]]));
    bytes.extend_from_slice(&raw_page(0x04, last_position, 7, 3, &[&[2u8; 30]]));
    OggTrackBuf::new(bytes).unwrap()
}

fn rng() -> rand::ChaChaRng {
    rand::ChaChaRng::new_unseeded()
}

#[test]
fn track_is_decorated_from_its_headers() {
    let ogg = track("Second Title", 96000);
    let bytes = ogg.as_u8_slice().to_vec();
    let entry = Track::from_ogg_track(Handle(17), ogg);
    assert_eq!(entry.handle(), Handle(17));
    assert_eq!(entry.comments().vendor, "vendor");
    assert_eq!(entry.comments().comments.len(), 4);
    let info = entry.get_track_info();
    assert_eq!(info.handle, Handle(17));
    assert_eq!(info.started_at, None);
    assert_eq!(info.artist, "Somebody");
    assert_eq!(info.album, "Records");
    assert_eq!(info.title, "Second Title");
    assert_eq!(info.sample_rate, 48000);
    assert_eq!(info.sample_count, 96005);
    assert_eq!(info.sample_position, 0);
    let copy = entry.clone();
    assert_eq!(copy.get_track_info().title, "Second Title");
    assert_eq!(entry.into_inner().into_inner(), bytes);
}

#[test]
fn missing_tags_are_empty() {
    let mut bytes = raw_page(0x02, 0, 7, 0, &[&id_header(44100)]);
    bytes.extend_from_slice(&raw_page(0x04, 0, 7, 1, &[&comment_header("v", &[("X", "y")])]));
    let entry = Track::from_ogg_track(Handle(1), OggTrackBuf::new(bytes).unwrap());
    let info = entry.get_track_info();
    assert_eq!((info.artist.as_str(), info.album.as_str(), info.title.as_str()), ("", "", ""));
    assert_eq!(info.sample_rate, 44100);
    assert_eq!(info.sample_count, 0);
}

#[test]
fn keys_match_whatever_their_case() {
    assert!(eq_ignore_ascii_case("artist", "ARTIST"));
    assert!(eq_ignore_ascii_case("ArTiSt", "ARTIST"));
    assert!(eq_ignore_ascii_case("", ""));
    assert!(!eq_ignore_ascii_case("artists", "ARTIST"));
    assert!(!eq_ignore_ascii_case("artis", "ARTIST"));
    assert!(!eq_ignore_ascii_case("ärtist", "ARTIST"));
    assert!(!eq_ignore_ascii_case("[", "{"));
    assert!(eq_ignore_ascii_case("é", "é"));
}

#[test]
fn allocator_hands_out_unused_handles_up_to_its_limit() {
    let mut halloc = HandleAllocator::new(rng(), 3);
    let a = halloc.generate().unwrap();
    let b = halloc.generate().unwrap();
    let c = halloc.generate().unwrap();
    assert!(a != b && b != c && a != c);
    assert!(a.0 != 0 && b.0 != 0 && c.0 != 0);
    assert_eq!(halloc.len(), 3);
    assert_eq!(halloc.generate(), Err(()));
    assert_eq!(halloc.dispose(b), Ok(()));
    assert_eq!(halloc.dispose(b), Err(b));
    assert_eq!(halloc.len(), 2);
    let d = halloc.generate().unwrap();
    assert!(d != a && d != c);
    assert_eq!(halloc.dispose(Handle(0)), Err(Handle(0)));
}

#[test]
fn allocator_claims_candidates() {
    let mut halloc = HandleAllocator::new(rng(), 2);
    assert_eq!(halloc.claim(0), None);
    assert_eq!(halloc.claim(5), Some(Handle(5)));
    assert_eq!(halloc.claim(5), None);
    assert_eq!(halloc.claim(u64::MAX), Some(Handle(u64::MAX)));
    assert_eq!(halloc.claim(6), None);
    assert_eq!(halloc.len(), 2);
    let mut none = HandleAllocator::new(rng(), 0);
    assert_eq!(none.generate(), Err(()));
    assert_eq!(none.claim(1), None);
    assert!(DRAW_LIMIT > 0);
}

#[test]
fn allocator_claims_the_first_unused_value_behind_another() {
    let mut halloc = HandleAllocator::new(rng(), 6);
    assert_eq!(halloc.claim_behind(5), Some(Handle(5)));
    assert_eq!(halloc.claim_behind(5), Some(Handle(6)));
    assert_eq!(halloc.claim(8), Some(Handle(8)));
    assert_eq!(halloc.claim_behind(5), Some(Handle(7)));
    assert_eq!(halloc.claim_behind(5), Some(Handle(9)));
    // behind the largest value the count goes on from zero, which is never given
    assert_eq!(halloc.claim_behind(u64::MAX), Some(Handle(u64::MAX)));
    assert_eq!(halloc.len(), 6);
    assert_eq!(halloc.claim_behind(1), None);
    assert_eq!(halloc.dispose(Handle(6)), Ok(()));
    assert_eq!(halloc.claim_behind(u64::MAX), Some(Handle(1)));
    assert_eq!(halloc.dispose(Handle(9)), Ok(()));
    assert_eq!(halloc.claim_behind(0), Some(Handle(2)));
    assert_eq!(halloc.claim_behind(0), None);
    assert_eq!(halloc.len(), 6);
}

#[test]
fn allocator_never_fails_while_there_is_room() {
    let mut halloc = HandleAllocator::new(rng(), 500);
    let mut seen = std::collections::HashSet::new();
    for _ in 0..500 {
        let handle = halloc.generate().unwrap();
        assert!(handle.0 != 0);
        assert!(seen.insert(handle.0));
    }
    assert_eq!(halloc.generate(), Err(()));
    let mut queue = PlayQueue::new(rng(), 30);
    for i in 0..30 {
        assert!(queue.add_track(track("t", i)).is_ok());
    }
    assert_eq!(queue.add_track(track("t", 0)), Err(PlayQueueError::Full));
}

#[test]
fn queue_is_full_at_capacity() {
    let mut queue = PlayQueue::new(rng(), 3);
    let mut handles = Vec::new();
    for i in 0..3 {
        handles.push(queue.add_track(track("t", i)).unwrap());
    }
    assert_eq!(queue.add_track(track("t", 9)), Err(PlayQueueError::Full));
    assert_eq!(queue.add_track_as(99, track("t", 9)), Err(PlayQueueError::Full));
    assert_eq!(queue.len(), 3);
    handles.sort_by_key(|h| h.0);
    handles.dedup();
    assert_eq!(handles.len(), 3);
    assert!(queue.pop_track().is_some());
    assert!(queue.add_track(track("t", 9)).is_ok());
    let mut empty = PlayQueue::new(rng(), 0);
    assert_eq!(empty.add_track(track("t", 1)), Err(PlayQueueError::Full));
}

#[test]
fn handles_stay_unique_over_enqueues_and_pops() {
    let mut queue = PlayQueue::new(rng(), 4);
    let mut live: Vec<Handle> = Vec::new();
    let mut popped = 0;
    for round in 0..40u64 {
        if round % 3 == 2 {
            if let Some(track) = queue.pop_track() {
                popped += 1;
                assert!(live.contains(&track.handle()));
            }
        } else if let Ok(handle) = queue.add_track(track("t", round)) {
            assert!(!live.contains(&handle), "handle {:?} came twice", handle);
            assert!(handle.0 != 0);
            live.push(handle);
        }
        let waiting: Vec<Handle> = queue.track_infos().iter().map(|i| i.handle).collect();
        let mut sorted = waiting.clone();
        sorted.sort_by_key(|h| h.0);
        sorted.dedup();
        assert_eq!(sorted.len(), waiting.len());
        assert!(waiting.len() <= 4);
        assert!(queue.get_history().len() <= HISTORY_CAPACITY);
    }
    assert!(popped > HISTORY_CAPACITY);
}

#[test]
fn queue_is_first_in_first_out_and_remembers() {
    let mut queue = PlayQueue::new(rng(), 20);
    assert!(queue.pop_track().is_none());
    assert!(queue.get_history().is_empty());
    let a = queue.add_track_as(11, track("a", 1)).unwrap();
    let b = queue.add_track_as(22, track("b", 2)).unwrap();
    assert_eq!((a, b), (Handle(11), Handle(22)));
    assert_eq!(queue.add_track_as(11, track("c", 3)), Err(PlayQueueError::Full));
    assert_eq!(queue.add_track_as(0, track("c", 3)), Err(PlayQueueError::Full));
    let infos = queue.track_infos();
    assert_eq!(infos.iter().map(|i| i.title.as_str()).collect::<Vec<_>>(), vec!["a", "b"]);
    assert_eq!(queue.pop_track().unwrap().handle(), a);
    assert!(queue.get_history().is_empty());
    assert_eq!(queue.pop_track().unwrap().handle(), b);
    let history = queue.get_history();
    assert_eq!(history.len(), 1);
    assert_eq!(history[0].handle, a);
    // a handle in the history is still in use
    assert_eq!(queue.add_track_as(11, track("c", 3)), Err(PlayQueueError::Full));
    for i in 0..12 {
        queue.add_track_as(100 + i, track("x", i)).unwrap();
        queue.pop_track().unwrap();
    }
    let history = queue.get_history();
    assert_eq!(history.len(), HISTORY_CAPACITY - 1);
    assert_eq!(history[0].handle, Handle(110));
    // the oldest entries left the history, and their handles are free again
    assert_eq!(queue.add_track_as(11, track("c", 3)), Ok(Handle(11)));
}

#[test]
fn remove_by_handle_keeps_the_order_of_the_rest() {
    let mut queue = PlayQueue::new(rng(), 20);
    for i in 1..=4 {
        queue.add_track_as(i, track("t", i)).unwrap();
    }
    queue.remove_by_handle(Handle(2));
    queue.remove_by_handle(Handle(9));
    let left: Vec<u64> = queue.track_infos().iter().map(|i| i.handle.0).collect();
    assert_eq!(left, vec![1, 3, 4]);
    assert_eq!(queue.add_track_as(2, track("t", 2)), Ok(Handle(2)));
    let left: Vec<u64> = queue.track_infos().iter().map(|i| i.handle.0).collect();
    assert_eq!(left, vec![1, 3, 4, 2]);
}

#[test]
fn reorder_puts_named_tracks_first() {
    let mut queue = PlayQueue::new(rng(), 20);
    for i in 1..=5 {
        queue.add_track_as(i, track("t", i)).unwrap();
    }
    queue.reorder(&[Handle(4), Handle(9), Handle(2), Handle(4)]);
    let order: Vec<u64> = queue.track_infos().iter().map(|i| i.handle.0).collect();
    assert_eq!(order, vec![4, 2, 1, 3, 5]);
    queue.reorder(&[]);
    let order: Vec<u64> = queue.track_infos().iter().map(|i| i.handle.0).collect();
    assert_eq!(order, vec![4, 2, 1, 3, 5]);
    assert_eq!(queue.pop_track().unwrap().handle(), Handle(4));
}
