use ireul::clock::{delay_ms, AudioClock, OggClock};
use ireul::page::OggPageBuf;

fn reference_crc(data: &[u8]) -> u32 {
    let mut crc: u32 = 0;
    for &byte in data {
        crc ^= (byte as u32) << 24;
        for _ in 0..8 {
            crc = if crc & 0x8000_0000 != 0 { (crc << 1) ^ 0x04C1_1DB7 } else { crc << 1 };
        }
    }
    crc
}

fn page_at(granule: u64) -> OggPageBuf {
    let mut page = Vec::new();
    page.extend_from_slice(b"OggS");
    page.push(0);
    page.push(0);
    page.extend_from_slice(&granule.to_le_bytes());
    page.extend_from_slice(&[0u8; 12]);
    page.push(0);
    let crc = reference_crc(&page);
    page[22..26].copy_from_slice(&crc.to_le_bytes());
    OggPageBuf::new(page).unwrap()
}

#[test]
fn delay_is_position_over_rate_less_elapsed() {
    assert_eq!(delay_ms(48000, 0, 48000), 1000);
    assert_eq!(delay_ms(48000, 0, 0), 0);
    assert_eq!(delay_ms(44100, 0, 44099), 999);
    assert_eq!(delay_ms(44100, 250, 44100), 750);
    assert_eq!(delay_ms(44100, 1000, 44100), 0);
    assert_eq!(delay_ms(44100, 5000, 44100), 0);
    assert_eq!(delay_ms(48000, -20, 960), 40);
    assert_eq!(delay_ms(1, 0, u64::MAX), u64::MAX);
    assert_eq!(delay_ms(1000, i64::MIN, u64::MAX), u64::MAX);
    assert_eq!(delay_ms(u32::MAX, i64::MAX, u64::MAX), 0);
    assert_eq!(delay_ms(1000, 3, u64::MAX), u64::MAX - 3);
}

#[test]
fn clock_follows_tracks_that_start_at_zero() {
    let mut clock = OggClock::new_with_start(1000, time::SteadyTime::now());
    assert_eq!(clock.sample_rate(), 1000);
    assert_eq!(clock.advance(100), 100);
    assert_eq!(clock.advance(250), 250);
    // a position that falls back begins a new track where the last ended
    assert_eq!(clock.advance(0), 250);
    assert_eq!(clock.advance(40), 290);
    assert_eq!(clock.advance(u64::MAX), u64::MAX);
    assert_eq!(clock.advance(7), u64::MAX);
}

#[test]
fn wait_is_counted_from_the_start_of_the_stream() {
    let mut clock = OggClock::new_with_start(48000, time::SteadyTime::now());
    let first = page_at(48000);
    assert_eq!(clock.wait_duration_at(0, &first.as_ref()), 1000);
    let second = page_at(96000);
    assert_eq!(clock.wait_duration_at(1500, &second.as_ref()), 500);
    let next_track = page_at(0);
    assert_eq!(clock.wait_duration_at(1990, &next_track.as_ref()), 10);
    let late = page_at(480);
    assert_eq!(clock.wait_duration_at(5000, &late.as_ref()), 0);
}

#[test]
fn wait_by_the_clock_is_never_longer_than_the_offset() {
    let start = time::SteadyTime::now();
    let clock = AudioClock::new_with_start(48000, start);
    assert_eq!(clock.sample_rate(), 48000);
    assert!(clock.wait_delay(time::SteadyTime::now(), 48000) <= 1000);
    assert_eq!(clock.wait_delay(time::SteadyTime::now(), 0), 0);
    let mut ogg = OggClock::new(48000);
    assert!(ogg.wait_duration(&page_at(96000).as_ref()) <= 2000);
}
