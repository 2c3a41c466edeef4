//! The stream splicer: one unbroken stream out of tracks laid end to end.
//!
//! The splicer keeps a buffer of pages that are due next. When the buffer
//! runs out it takes the next track of the queue, or the fallback track if
//! none waits, gives all its pages a serial of their own, and puts them in
//! the buffer. A tick takes one page out; sending it and waiting until the
//! next is due is the caller's part.

use std::collections::VecDeque;
use vstd::prelude::*;
use crate::byteio::append_bytes;
use crate::clock::{absolute_position, delay_spec, unix_now, OggClock};
use crate::page::{
    is_page, lemma_overwrite_fields, lemma_page_is_framed, lemma_with_checksum_fields,
    page_body, page_flag, page_position, page_sequence, page_serial, with_checksum,
    with_position, with_sequence, with_serial, OggPage, OggPageBuf, FLAG_CONTINUED, FLAG_EOS,
};
use crate::proxy::{
    EnqueueTrackError, EnqueueTrackRequest, FastForward, FastForwardError, FastForwardRequest,
    Queue, ReplaceFallbackError, ReplaceFallbackRequest, StatusError, StatusRequest,
};
use crate::queue::{
    clone_infos, decorated, has_headers, info_of, infos_model, track_sample_rate, Handle,
    PlayQueue, Track, TrackInfo, TrackInfoModel, TrackModel,
};
use crate::rewrite::{pages_rewritable, rewrite_comments, rewritten_pages};
use crate::track::{
    all_pages, concat, is_track, lemma_track_push, lemma_track_split, track_pages, OggTrack,
    OggTrackBuf,
};
use crate::vorbis::{
    clone_pairs, comment_packet, find_in_pages, fits_packet, pairs_model, Comments, CommentsModel,
    VorbisHeader,
};

verus! {

/// How many played tracks the splicer remembers.
pub const SPLICER_HISTORY_CAPACITY: usize = 20;

/// The granule positions of a track's pages start at zero and never go
/// back.
pub open spec fn positions_valid(pages: Seq<Seq<u8>>) -> bool {
    &&& pages.len() > 0 ==> page_position(pages[0]) == 0
    &&& forall|i: int, j: int|
        0 <= i < j < pages.len() ==> page_position(#[trigger] pages[i]) <= page_position(
            #[trigger] pages[j],
        )
}

/// What is checked of a track before anything is done with it, in this
/// order: it is not empty; it is valid pages laid end to end; its positions
/// start at zero and never go back; it has a comment header; it has an
/// identification header; its sample rate is the stream's.
pub open spec fn validation(track: Seq<u8>, rate: u32) -> Result<(), EnqueueTrackError> {
    if track.len() == 0 {
        Err(EnqueueTrackError::InvalidTrack)
    } else if !is_track(track) {
        Err(EnqueueTrackError::InvalidTrack)
    } else if !positions_valid(track_pages(track)) {
        Err(EnqueueTrackError::InvalidTrack)
    } else if find_in_pages(track_pages(track), 3) is None {
        Err(EnqueueTrackError::InvalidTrack)
    } else if find_in_pages(track_pages(track), 1) is None {
        Err(EnqueueTrackError::InvalidTrack)
    } else if track_sample_rate(track) != rate {
        Err(EnqueueTrackError::BadSampleRate)
    } else {
        Ok(())
    }
}

/// The comments that take the place of a track's own.
pub open spec fn replacement(metadata: Seq<(Seq<char>, Seq<char>)>) -> CommentsModel {
    CommentsModel { vendor: "Ireul Core"@, comments: metadata }
}

/// The track as it goes to the queue: as it came if no comments were sent
/// with it, else with the sent comments in place of its own. `None` if the
/// sent comments do not fit a comment header, or if a page cannot hold its
/// packets any more.
pub open spec fn rewritten_track(
    track: Seq<u8>,
    metadata: Option<Seq<(Seq<char>, Seq<char>)>>,
) -> Option<Seq<u8>> {
    match metadata {
        None => Some(track),
        Some(list) => {
            let packet = comment_packet(replacement(list));
            if !fits_packet(replacement(list)) {
                None
            } else if !pages_rewritable(track_pages(track), packet) {
                None
            } else {
                Some(concat(rewritten_pages(track_pages(track), packet)))
            }
        },
    }
}

/// A track made ready for the queue, or why it is refused.
pub open spec fn prepare_spec(
    track: Seq<u8>,
    metadata: Option<Seq<(Seq<char>, Seq<char>)>>,
    rate: u32,
) -> Result<Seq<u8>, EnqueueTrackError> {
    match validation(track, rate) {
        Err(e) => Err(e),
        Ok(_) => match rewritten_track(track, metadata) {
            None => Err(EnqueueTrackError::InvalidTrack),
            Some(rewritten) => Ok(rewritten),
        },
    }
}

/// The character strings of comments that may have been sent.
pub open spec fn metadata_model(metadata: Option<Vec<(String, String)>>) -> Option<
    Seq<(Seq<char>, Seq<char>)>,
> {
    match metadata {
        None => None,
        Some(list) => Some(pairs_model(list@)),
    }
}

/// The pages, each with the serial `serial` and the checksum that goes
/// with it.
pub open spec fn with_serial_pages(pages: Seq<Seq<u8>>, serial: u32) -> Seq<Seq<u8>> {
    Seq::new(pages.len(), |i: int| with_checksum(with_serial(pages[i], serial)))
}

/// How many pages at the head of the buffer continue a packet.
pub open spec fn lead_len(buffer: Seq<Seq<u8>>) -> int
    decreases buffer.len(),
{
    if buffer.len() == 0 {
        0
    } else if page_flag(buffer[0], FLAG_CONTINUED) {
        1 + lead_len(buffer.drop_first())
    } else {
        0
    }
}

/// The index of the first page that ends a stream, or the number of pages
/// if none does.
pub open spec fn first_eos(buffer: Seq<Seq<u8>>) -> int
    decreases buffer.len(),
{
    if buffer.len() == 0 {
        0
    } else if page_flag(buffer[0], FLAG_EOS) {
        0
    } else {
        1 + first_eos(buffer.drop_first())
    }
}

/// The page made to follow the page sent last: with its position and
/// serial, and the sequence number behind its own.
pub open spec fn closing_page(page: Seq<u8>, granule: u64, serial: u32, sequence: u32) -> Seq<u8> {
    with_checksum(
        with_sequence(
            with_serial(with_position(page, granule), serial),
            if sequence == u32::MAX {
                0u32
            } else {
                (sequence + 1) as u32
            },
        ),
    )
}

/// The buffer after a fast-forward to the track boundary: the pages at its
/// head that continue a packet, and behind them the first page that ends a
/// stream, made to follow the page sent last. The pages between them and
/// all pages behind are dropped.
pub open spec fn fast_forwarded(
    buffer: Seq<Seq<u8>>,
    granule: u64,
    serial: u32,
    sequence: u32,
) -> Seq<Seq<u8>> {
    let lead = lead_len(buffer);
    let rest = buffer.skip(lead);
    let at = first_eos(rest);
    if 0 <= at < rest.len() {
        buffer.take(lead).push(closing_page(rest[at], granule, serial, sequence))
    } else {
        buffer.take(lead)
    }
}

/// The first `SPLICER_HISTORY_CAPACITY` entries of a history.
pub open spec fn history_cut(history: Seq<TrackInfoModel>) -> Seq<TrackInfoModel> {
    if history.len() <= SPLICER_HISTORY_CAPACITY {
        history
    } else {
        history.take(SPLICER_HISTORY_CAPACITY as int)
    }
}

/// The info with another start time.
pub open spec fn started(info: TrackInfoModel, at: i64) -> TrackInfoModel {
    TrackInfoModel { started_at: Some(at), ..info }
}

/// The info with another sample position.
pub open spec fn positioned(info: TrackInfoModel, position: u64) -> TrackInfoModel {
    TrackInfoModel { sample_position: position, ..info }
}

/// The lead of a buffer is within it.
pub proof fn lemma_lead_len(buffer: Seq<Seq<u8>>)
    ensures
        0 <= lead_len(buffer) <= buffer.len(),
        0 <= first_eos(buffer) <= buffer.len(),
    decreases buffer.len(),
{
    if buffer.len() > 0 {
        lemma_lead_len(buffer.drop_first());
    }
}

/// Editing position, serial and sequence number of a valid page and
/// renewing the checksum gives a valid page with those values.
pub proof fn lemma_closing_page(page: Seq<u8>, granule: u64, serial: u32, sequence: u32)
    requires
        is_page(page),
    ensures
        is_page(closing_page(page, granule, serial, sequence)),
        page_position(closing_page(page, granule, serial, sequence)) == granule,
        page_serial(closing_page(page, granule, serial, sequence)) == serial,
        page_sequence(closing_page(page, granule, serial, sequence)) == if sequence == u32::MAX {
            0u32
        } else {
            (sequence + 1) as u32
        },
        page_flag(closing_page(page, granule, serial, sequence), FLAG_EOS) == page_flag(
            page,
            FLAG_EOS,
        ),
        closing_page(page, granule, serial, sequence).len() == page.len(),
{
    let next: u32 = if sequence == u32::MAX { 0u32 } else { (sequence + 1) as u32 };
    lemma_page_is_framed(page);
    crate::byteio::lemma_decode_encode_u64(granule);
    crate::byteio::lemma_decode_encode_u32(0, serial);
    crate::byteio::lemma_decode_encode_u32(0, next);
    let a = with_position(page, granule);
    lemma_overwrite_fields(page, 6, crate::byteio::le_bytes_u64(granule));
    let b = with_serial(a, serial);
    lemma_overwrite_fields(a, 14, crate::byteio::le_bytes_u32(serial));
    let c = with_sequence(b, next);
    lemma_overwrite_fields(b, 18, crate::byteio::le_bytes_u32(next));
    lemma_with_checksum_fields(c);
}

/// After a fast-forward on a buffer that holds a page ending a stream and
/// does not begin with a page continuing a packet, the buffer holds that
/// page alone, made to follow the page sent last. So the next page taken
/// out is that page, and the buffer is empty behind it: the page after it
/// is the first of the next track.
pub proof fn lemma_fast_forward_leaves_closing_page(
    buffer: Seq<Seq<u8>>,
    granule: u64,
    serial: u32,
    sequence: u32,
)
    requires
        all_pages(buffer),
        lead_len(buffer) == 0,
        first_eos(buffer) < buffer.len(),
    ensures
        fast_forwarded(buffer, granule, serial, sequence) == seq![
            closing_page(buffer[first_eos(buffer)], granule, serial, sequence),
        ],
        is_page(fast_forwarded(buffer, granule, serial, sequence)[0]),
        page_flag(fast_forwarded(buffer, granule, serial, sequence)[0], FLAG_EOS),
        page_position(fast_forwarded(buffer, granule, serial, sequence)[0]) == granule,
        page_serial(fast_forwarded(buffer, granule, serial, sequence)[0]) == serial,
        fast_forwarded(buffer, granule, serial, sequence).drop_first().len() == 0,
{
    lemma_lead_len(buffer);
    let at = first_eos(buffer);
    assert(buffer.skip(0) =~= buffer);
    assert(buffer.take(0) =~= Seq::<Seq<u8>>::empty());
    assert(fast_forwarded(buffer, granule, serial, sequence) =~= seq![
        closing_page(buffer[at], granule, serial, sequence),
    ]);
    lemma_first_eos_is_eos(buffer);
    lemma_closing_page(buffer[at], granule, serial, sequence);
}

/// The page at `first_eos` ends a stream, and the pages before it do not.
pub proof fn lemma_first_eos_is_eos(buffer: Seq<Seq<u8>>)
    ensures
        first_eos(buffer) < buffer.len() ==> page_flag(buffer[first_eos(buffer)], FLAG_EOS),
        forall|i: int| 0 <= i < first_eos(buffer) ==> !page_flag(#[trigger] buffer[i], FLAG_EOS),
    decreases buffer.len(),
{
    if buffer.len() > 0 && !page_flag(buffer[0], FLAG_EOS) {
        let rest = buffer.drop_first();
        lemma_first_eos_is_eos(rest);
        lemma_lead_len(rest);
        assert forall|i: int| 0 <= i < first_eos(buffer) implies !page_flag(
            #[trigger] buffer[i],
            FLAG_EOS,
        ) by {
            if i > 0 {
                assert(buffer[i] == rest[i - 1]);
            }
        }
        if first_eos(buffer) < buffer.len() {
            assert(buffer[first_eos(buffer)] == rest[first_eos(rest)]);
        }
    }
}

/// Checks that the granule positions of a track start at zero and never go
/// back.
pub fn validate_positions(track: &OggTrack) -> (r: Result<(), ()>)
    requires
        track.wf(),
    ensures
        r is Ok <==> positions_valid(track_pages(track@)),
{
    let mut pages = track.pages();
    let ghost all = track_pages(track@);
    let ghost mut seen: int = 0;
    let mut current: u64 = 0;
    let mut is_first = true;
    proof {
        assert(all.skip(0) =~= all);
    }
    loop
        invariant
            pages.wf(),
            all == track_pages(track@),
            0 <= seen <= all.len(),
            pages.remaining() == all.skip(seen),
            is_first == (seen == 0),
            seen > 0 ==> current == page_position(all[seen - 1]) && page_position(all[0]) == 0,
            seen == 0 ==> current == 0,
            forall|i: int, j: int|
                0 <= i < j < seen ==> page_position(#[trigger] all[i]) <= page_position(
                    #[trigger] all[j],
                ),
        decreases all.len() - seen,
    {
        match pages.next() {
            Some(page) => {
                proof {
                    assert(all.skip(seen)[0] == all[seen]);
                    assert(all.skip(seen).drop_first() =~= all.skip(seen + 1));
                }
                let position = page.position();
                if is_first {
                    is_first = false;
                    if position != 0 {
                        return Err(());
                    }
                }
                if position < current {
                    assert(page_position(all[seen - 1]) > page_position(all[seen]));
                    return Err(());
                }
                proof {
                    assert forall|i: int, j: int| 0 <= i < j < seen + 1 implies page_position(
                        #[trigger] all[i],
                    ) <= page_position(#[trigger] all[j]) by {
                        if j == seen && i < seen - 1 {
                            assert(page_position(all[i]) <= page_position(all[seen - 1]));
                        }
                    }
                    seen = seen + 1;
                }
                current = position;
            },
            None => {
                proof {
                    assert(all.skip(seen).len() == 0);
                }
                return Ok(());
            },
        }
    }
}

/// Checks that a track has a comment header.
pub fn validate_comment_section(track: &OggTrack) -> (r: Result<(), ()>)
    requires
        track.wf(),
    ensures
        r is Ok <==> find_in_pages(track_pages(track@), 3) is Some,
{
    match VorbisHeader::find_comments(track.pages()) {
        Ok(_) => Ok(()),
        Err(_) => Err(()),
    }
}

/// Checks that a track has an identification header.
pub fn validate_identification_section(track: &OggTrack) -> (r: Result<(), ()>)
    requires
        track.wf(),
    ensures
        r is Ok <==> find_in_pages(track_pages(track@), 1) is Some,
{
    match VorbisHeader::find_identification(track.pages()) {
        Ok(_) => Ok(()),
        Err(_) => Err(()),
    }
}

/// Checks that a track has an identification header that gives the sample
/// rate `req`.
pub fn check_sample_rate(req: u32, track: &OggTrack) -> (r: Result<(), ()>)
    requires
        track.wf(),
    ensures
        r is Ok <==> find_in_pages(track_pages(track@), 1) is Some && track_sample_rate(track@)
            == req,
{
    let packet = match VorbisHeader::find_identification(track.pages()) {
        Ok(packet) => packet,
        Err(_) => {
            return Err(());
        },
    };
    match packet.identification_header() {
        Some(id_header) => {
            if id_header.audio_sample_rate == req {
                Ok(())
            } else {
                Err(())
            }
        },
        None => Err(()),
    }
}

/// A copy of the track in which every page has the serial `serial`.
pub fn update_serial(serial: u32, track: &OggTrack) -> (r: OggTrackBuf)
    requires
        track.wf(),
    ensures
        r.wf(),
        track_pages(r@) == with_serial_pages(track_pages(track@), serial),
{
    let mut out: Vec<u8> = Vec::new();
    let mut pages = track.pages();
    let ghost all = track_pages(track@);
    let ghost want = with_serial_pages(all, serial);
    let ghost mut seen: int = 0;
    proof {
        assert(all.skip(0) =~= all);
        assert(want.take(0) =~= Seq::<Seq<u8>>::empty());
        assert(track_pages(out@) =~= Seq::<Seq<u8>>::empty());
    }
    loop
        invariant
            pages.wf(),
            all == track_pages(track@),
            want == with_serial_pages(all, serial),
            0 <= seen <= all.len(),
            pages.remaining() == all.skip(seen),
            is_track(out@),
            track_pages(out@) == want.take(seen),
        ensures
            is_track(out@),
            track_pages(out@) == want,
        decreases all.len() - seen,
    {
        match pages.next() {
            Some(page) => {
                proof {
                    assert(all.skip(seen)[0] == all[seen]);
                    assert(all.skip(seen).drop_first() =~= all.skip(seen + 1));
                    assert(want.take(seen + 1) =~= want.take(seen).push(want[seen]));
                }
                let edited = page.set_serial(serial);
                proof {
                    lemma_track_push(out@, edited@);
                    seen = seen + 1;
                }
                append_bytes(&mut out, edited.as_u8_slice());
            },
            None => {
                proof {
                    assert(all.skip(seen).len() == 0);
                    assert(want.take(seen) =~= want);
                }
                break ;
            },
        }
    }
    OggTrackBuf::from_checked(out)
}

/// Whether the body of a page begins with an identification header's type
/// byte and the word `vorbis`.
pub fn page_starts_track(page: &OggPage) -> (yes: bool)
    requires
        page.wf(),
    ensures
        yes == (page_body(page@).len() >= 7 && page_body(page@).take(7) == seq![
            1u8,
            0x76u8,
            0x6fu8,
            0x72u8,
            0x62u8,
            0x69u8,
            0x73u8,
        ]),
{
    let body = page.body();
    let ghost word = seq![1u8, 0x76u8, 0x6fu8, 0x72u8, 0x62u8, 0x69u8, 0x73u8];
    if body.len() < 7 {
        return false;
    }
    let yes = body[0] == 1 && body[1] == 0x76 && body[2] == 0x6f && body[3] == 0x72 && body[4]
        == 0x62 && body[5] == 0x69 && body[6] == 0x73;
    proof {
        let head = body@.take(7);
        if yes {
            assert(head =~= word);
        } else {
            assert(head[0] == body@[0] && head[1] == body@[1] && head[2] == body@[2]);
            assert(head[3] == body@[3] && head[4] == body@[4] && head[5] == body@[5]);
            assert(head[6] == body@[6]);
            assert(word[0] == 1 && word[1] == 0x76 && word[2] == 0x6f && word[3] == 0x72);
            assert(word[4] == 0x62 && word[5] == 0x69 && word[6] == 0x73);
        }
    }
    yes
}

/// Cuts a history to its first `SPLICER_HISTORY_CAPACITY` entries.
pub fn history_cleanup(history: &mut Vec<TrackInfo>)
    ensures
        infos_model(final(history)@) == history_cut(infos_model(old(history)@)),
{
    if history.len() > SPLICER_HISTORY_CAPACITY {
        history.truncate(SPLICER_HISTORY_CAPACITY);
        assert(infos_model(history@) =~= infos_model(old(history)@).take(
            SPLICER_HISTORY_CAPACITY as int,
        ));
    }
}

/// Checks a track that a client sent and makes it ready for the queue:
/// with the sent comments in place of its own, if any were sent.
pub fn prepare_track(track: Vec<u8>, metadata: &Option<Vec<(String, String)>>, rate: u32) -> (r:
    Result<OggTrackBuf, EnqueueTrackError>)
    ensures
        match r {
            Ok(ready) => prepare_spec(track@, metadata_model(*metadata), rate) == Ok::<
                Seq<u8>,
                EnqueueTrackError,
            >(ready@) && ready.wf() && has_headers(ready@) && track_pages(ready@).len() > 0,
            Err(e) => prepare_spec(track@, metadata_model(*metadata), rate) == Err::<
                Seq<u8>,
                EnqueueTrackError,
            >(e),
        },
{
    if track.len() == 0 {
        return Err(EnqueueTrackError::InvalidTrack);
    }
    let track = match OggTrackBuf::new(track) {
        Ok(track) => track,
        Err(_) => {
            return Err(EnqueueTrackError::InvalidTrack);
        },
    };
    if validate_positions(&track.as_ref()).is_err() {
        return Err(EnqueueTrackError::InvalidTrack);
    }
    if validate_comment_section(&track.as_ref()).is_err() {
        return Err(EnqueueTrackError::InvalidTrack);
    }
    if validate_identification_section(&track.as_ref()).is_err() {
        return Err(EnqueueTrackError::InvalidTrack);
    }
    if check_sample_rate(rate, &track.as_ref()).is_err() {
        return Err(EnqueueTrackError::BadSampleRate);
    }
    proof {
        lemma_nonempty_track_has_pages(track@);
    }
    let list = match metadata {
        None => {
            return Ok(track);
        },
        Some(list) => list,
    };
    let comments = Comments { vendor: "Ireul Core".to_owned(), comments: clone_pairs(list) };
    let packet = match comments.build_comment_packet() {
        Some(packet) => packet,
        None => {
            return Err(EnqueueTrackError::InvalidTrack);
        },
    };
    let rewritten = match rewrite_comments(&track.as_ref(), packet.as_slice()) {
        Some(rewritten) => rewritten,
        None => {
            return Err(EnqueueTrackError::InvalidTrack);
        },
    };
    proof {
        lemma_track_split(rewritten@);
        lemma_track_split(track@);
        crate::vorbis::lemma_comment_packet_reads(comments@);
        crate::rewrite::lemma_find_in_rewritten(track_pages(track@), packet@);
    }
    Ok(rewritten)
}

/// A track that is not empty has a page.
pub proof fn lemma_nonempty_track_has_pages(track: Seq<u8>)
    requires
        is_track(track),
        track.len() > 0,
    ensures
        track_pages(track).len() > 0,
{
    crate::page::lemma_check_prefix(track);
}

} // verus!

verus! {

/// The byte strings of a buffer of pages.
pub open spec fn pages_model(buffer: Seq<OggPageBuf>) -> Seq<Seq<u8>> {
    Seq::new(buffer.len(), |i: int| buffer[i]@)
}

/// The sequence number behind `n`, wrapping round.
pub open spec fn next_number(n: u32) -> u32 {
    if n == u32::MAX {
        0u32
    } else {
        (n + 1) as u32
    }
}

/// One step of the stream: the page to send, and how long to wait after
/// sending it, in milliseconds.
pub struct Tick {
    pub page: OggPageBuf,
    pub wait_ms: u64,
}

/// The splicer's state.
pub struct Core {
    cur_serial: u32,
    clock: OggClock,
    playing_offline: bool,
    buffer: VecDeque<OggPageBuf>,
    prev_ogg_granule_pos: u64,
    prev_ogg_serial: u32,
    prev_ogg_sequence: u32,
    play_queue: PlayQueue,
    offline_track: Track,
    playing: Option<TrackInfo>,
    history: Vec<TrackInfo>,
}

/// What a track info that may be there holds.
pub open spec fn info_model(info: Option<TrackInfo>) -> Option<TrackInfoModel> {
    match info {
        Some(info) => Some(info@),
        None => None,
    }
}

impl Core {
    /// The pages that are due next, first to send first.
    pub closed spec fn buffer(&self) -> Seq<Seq<u8>> {
        pages_model(self.buffer@)
    }

    /// The serial that the next track gets.
    pub closed spec fn serial(&self) -> u32 {
        self.cur_serial
    }

    /// The sample rate of the stream, in Hz.
    pub closed spec fn rate(&self) -> u32 {
        self.clock.rate()
    }

    /// The stream position of the page sent last.
    pub closed spec fn clock_last(&self) -> u64 {
        self.clock.last()
    }

    /// The stream position at which the track of the page sent last began.
    pub closed spec fn clock_base(&self) -> u64 {
        self.clock.base()
    }

    /// Whether the track in the buffer is the fallback track.
    pub closed spec fn playing_offline(&self) -> bool {
        self.playing_offline
    }

    /// Granule position, serial and sequence number of the page sent last.
    pub closed spec fn prev(&self) -> (u64, u32, u32) {
        (self.prev_ogg_granule_pos, self.prev_ogg_serial, self.prev_ogg_sequence)
    }

    /// The play queue.
    pub closed spec fn queue(&self) -> PlayQueue {
        self.play_queue
    }

    /// The fallback track.
    pub closed spec fn fallback(&self) -> TrackModel {
        self.offline_track@
    }

    /// The track of the queue that plays, if one does.
    pub closed spec fn playing(&self) -> Option<TrackInfoModel> {
        info_model(self.playing)
    }

    /// The tracks played before, first played first.
    pub closed spec fn history(&self) -> Seq<TrackInfoModel> {
        infos_model(self.history@)
    }

    /// The clock, the queue and the fallback track are well formed, the
    /// fallback track and the waiting tracks have pages, and the buffer
    /// holds valid pages.
    pub closed spec fn wf(&self) -> bool {
        &&& self.clock.wf()
        &&& self.play_queue.wf()
        &&& self.offline_track.wf()
        &&& track_pages(self.offline_track@.data).len() > 0
        &&& forall|i: int|
            0 <= i < self.play_queue.items().len() ==> track_pages(
                (#[trigger] self.play_queue.items()[i]).data,
            ).len() > 0
        &&& forall|i: int| 0 <= i < self.buffer@.len() ==> (#[trigger] self.buffer@[i]).wf()
    }

    /// The buffer holds valid pages.
    pub proof fn lemma_buffer_pages(&self)
        requires
            self.wf(),
        ensures
            all_pages(self.buffer()),
    {
        assert forall|i: int| 0 <= i < self.buffer().len() implies is_page(
            #[trigger] self.buffer()[i],
        ) by {
            assert(self.buffer@[i].wf());
        }
    }

    /// The track that a refill takes: the head of the queue, or the
    /// fallback track if none waits.
    pub open spec fn next_track(&self) -> TrackModel {
        if self.queue().items().len() > 0 {
            self.queue().items()[0]
        } else {
            self.fallback()
        }
    }

    /// The buffer that the next page is taken from: the buffer, or if it is
    /// empty the pages of the next track under the next serial.
    pub open spec fn due_buffer(&self) -> Seq<Seq<u8>> {
        if self.buffer().len() > 0 {
            self.buffer()
        } else {
            with_serial_pages(track_pages(self.next_track().data), self.serial())
        }
    }

    /// The track that plays when the next page is taken, if it begins at
    /// Unix time `now`.
    pub open spec fn due_playing(&self, now: i64) -> Option<TrackInfoModel> {
        if self.buffer().len() > 0 {
            self.playing()
        } else if self.queue().items().len() > 0 {
            Some(started(info_of(self.queue().items()[0]), now))
        } else {
            None
        }
    }

    /// The history when the next page is taken.
    pub open spec fn due_history(&self) -> Seq<TrackInfoModel> {
        if self.buffer().len() > 0 {
            self.history()
        } else {
            match self.playing() {
                Some(info) => history_cut(self.history().push(info)),
                None => self.history(),
            }
        }
    }

    /// A splicer for a stream of `sample_rate` samples a second that starts
    /// now, with an empty queue for `capacity` tracks and `fallback` as its
    /// fallback track. The fallback track is checked as a track sent by a
    /// client is.
    pub fn new(sample_rate: u32, capacity: usize, rng: rand::ChaChaRng, fallback: Vec<u8>) -> (r:
        Result<Core, EnqueueTrackError>)
        requires
            sample_rate > 0,
            capacity + crate::queue::HISTORY_CAPACITY <= usize::MAX,
        ensures
            match r {
                Ok(core) => core.wf() && prepare_spec(fallback@, None, sample_rate) == Ok::<
                    Seq<u8>,
                    EnqueueTrackError,
                >(fallback@) && core.fallback() == decorated(Handle(0), fallback@) && core.rate()
                    == sample_rate && core.serial() == 0 && core.buffer() == Seq::<
                    Seq<u8>,
                >::empty() && core.queue().items() == Seq::<TrackModel>::empty()
                    && core.queue().capacity() == capacity && core.playing() is None
                    && core.history() == Seq::<TrackInfoModel>::empty() && !core.playing_offline()
                    && core.prev() == (0u64, 0u32, 0u32),
                Err(e) => prepare_spec(fallback@, None, sample_rate) == Err::<
                    Seq<u8>,
                    EnqueueTrackError,
                >(e),
            },
    {
        let no_metadata: Option<Vec<(String, String)>> = None;
        let track = match prepare_track(fallback, &no_metadata, sample_rate) {
            Ok(track) => track,
            Err(e) => {
                return Err(e);
            },
        };
        let core = Core {
            cur_serial: 0,
            clock: OggClock::new(sample_rate),
            playing_offline: false,
            buffer: VecDeque::new(),
            prev_ogg_granule_pos: 0,
            prev_ogg_serial: 0,
            prev_ogg_sequence: 0,
            play_queue: PlayQueue::new(rng, capacity),
            offline_track: Track::from_ogg_track(Handle(0), track),
            playing: None,
            history: Vec::new(),
        };
        assert(core.buffer() =~= Seq::<Seq<u8>>::empty());
        assert(core.history() =~= Seq::<TrackInfoModel>::empty());
        Ok(core)
    }

    /// The sample rate of the stream, in Hz.
    pub fn sample_rate(&self) -> (rate: u32)
        ensures
            rate == self.rate(),
    {
        self.clock.sample_rate()
    }

    /// Whether the track in the buffer is the fallback track.
    pub fn is_playing_offline(&self) -> (offline: bool)
        ensures
            offline == self.playing_offline(),
    {
        self.playing_offline
    }

    /// Refills the buffer. The track that played goes to the history. The
    /// next track of the queue, or the fallback track if none waits, gets
    /// the next serial on all its pages, and they go to the tail of the
    /// buffer. A track of the queue begins to play at Unix time `now`.
    pub fn fill_buffer_at(&mut self, now: i64)
        requires
            old(self).wf(),
        ensures
            final(self).wf(),
            final(self).buffer() == old(self).buffer() + with_serial_pages(
                track_pages(old(self).next_track().data),
                old(self).serial(),
            ),
            final(self).buffer().len() > old(self).buffer().len(),
            final(self).serial() == next_number(old(self).serial()),
            final(self).history() == match old(self).playing() {
                Some(info) => history_cut(old(self).history().push(info)),
                None => old(self).history(),
            },
            final(self).playing_offline() == (old(self).queue().items().len() == 0),
            final(self).playing() == if old(self).queue().items().len() > 0 {
                Some(started(info_of(old(self).queue().items()[0]), now))
            } else {
                None
            },
            final(self).queue().items() == if old(self).queue().items().len() > 0 {
                old(self).queue().items().drop_first()
            } else {
                old(self).queue().items()
            },
            final(self).queue().capacity() == old(self).queue().capacity(),
            final(self).fallback() == old(self).fallback(),
            final(self).prev() == old(self).prev(),
            final(self).rate() == old(self).rate(),
            final(self).clock_last() == old(self).clock_last(),
            final(self).clock_base() == old(self).clock_base(),
    {
        retire_playing(&self.playing, &mut self.history);
        let track = match self.play_queue.pop_track() {
            Some(track) => {
                self.playing_offline = false;
                let mut info = track.get_track_info();
                info.started_at = Some(now);
                self.playing = Some(info);
                track
            },
            None => {
                self.playing_offline = true;
                self.playing = None;
                self.offline_track.clone()
            },
        };
        proof {
            track.lemma_wf();
            self.offline_track.lemma_wf();
        }
        let ogg = track.into_inner();
        let serialised = update_serial(self.cur_serial, &ogg.as_ref());
        self.cur_serial = if self.cur_serial == u32::MAX {
            0
        } else {
            self.cur_serial + 1
        };
        push_pages(&mut self.buffer, &serialised);
    }
}

/// Puts the track that played, if one did, at the tail of the history and
/// cuts the history to its capacity.
fn retire_playing(playing: &Option<TrackInfo>, history: &mut Vec<TrackInfo>)
    ensures
        infos_model(final(history)@) == match info_model(*playing) {
            Some(info) => history_cut(infos_model(old(history)@).push(info)),
            None => infos_model(old(history)@),
        },
{
    match playing {
        Some(info) => {
            let copy = info.clone();
            history.push(copy);
            assert(infos_model(history@) =~= infos_model(old(history)@).push(info@));
            history_cleanup(history);
        },
        None => {},
    }
}

/// Puts the pages of a track at the tail of a buffer.
fn push_pages(buffer: &mut VecDeque<OggPageBuf>, track: &OggTrackBuf)
    requires
        track.wf(),
        forall|i: int| 0 <= i < old(buffer)@.len() ==> (#[trigger] old(buffer)@[i]).wf(),
    ensures
        pages_model(final(buffer)@) == pages_model(old(buffer)@) + track_pages(track@),
        forall|i: int| 0 <= i < final(buffer)@.len() ==> (#[trigger] final(buffer)@[i]).wf(),
{
    let ghost want = track_pages(track@);
    let ghost before = pages_model(buffer@);
    let mut pages = track.pages();
    let ghost mut seen: int = 0;
    proof {
        assert(want.skip(0) =~= want);
        assert(before + want.take(0) =~= before);
    }
    loop
        invariant
            pages.wf(),
            0 <= seen <= want.len(),
            pages.remaining() == want.skip(seen),
            pages_model(buffer@) == before + want.take(seen),
            forall|i: int| 0 <= i < buffer@.len() ==> (#[trigger] buffer@[i]).wf(),
        ensures
            pages_model(buffer@) == before + want,
            forall|i: int| 0 <= i < buffer@.len() ==> (#[trigger] buffer@[i]).wf(),
        decreases want.len() - seen,
    {
        match pages.next() {
            Some(page) => {
                let ghost held = buffer@;
                proof {
                    assert(want.skip(seen)[0] == want[seen]);
                    assert(want.skip(seen).drop_first() =~= want.skip(seen + 1));
                }
                let owned = page.to_owned();
                buffer.push_back(owned);
                proof {
                    assert(pages_model(buffer@) =~= pages_model(held).push(want[seen]));
                    assert(before + want.take(seen + 1) =~= (before + want.take(seen)).push(
                        want[seen],
                    ));
                    assert forall|i: int| 0 <= i < buffer@.len() implies (
                    #[trigger] buffer@[i]).wf() by {
                        if i < held.len() {
                            assert(buffer@[i] == held[i]);
                        }
                    }
                    seen = seen + 1;
                }
            },
            None => {
                proof {
                    assert(want.skip(seen).len() == 0);
                    assert(want.take(seen) =~= want);
                }
                break ;
            },
        }
    }
}

} // verus!

verus! {

/// The error of a request to replace the fallback track that stands for an
/// error of the shared checks.
pub open spec fn fallback_error(e: EnqueueTrackError) -> ReplaceFallbackError {
    match e {
        EnqueueTrackError::InvalidTrack => ReplaceFallbackError::InvalidTrack,
        EnqueueTrackError::BadSampleRate => ReplaceFallbackError::BadSampleRate,
        EnqueueTrackError::Full => ReplaceFallbackError::Full,
    }
}

/// Where the lead of a buffer ends: behind pages that continue a packet, at
/// a page that does not.
pub proof fn lemma_lead_len_at(buffer: Seq<Seq<u8>>, n: int)
    requires
        0 <= n <= buffer.len(),
        forall|j: int| 0 <= j < n ==> page_flag(#[trigger] buffer[j], FLAG_CONTINUED),
        n < buffer.len() ==> !page_flag(buffer[n], FLAG_CONTINUED),
    ensures
        lead_len(buffer) == n,
    decreases buffer.len(),
{
    if n > 0 {
        let rest = buffer.drop_first();
        assert(page_flag(buffer[0], FLAG_CONTINUED));
        assert forall|j: int| 0 <= j < n - 1 implies page_flag(
            #[trigger] rest[j],
            FLAG_CONTINUED,
        ) by {
            assert(rest[j] == buffer[j + 1]);
        }
        lemma_lead_len_at(rest, n - 1);
    }
}

/// Where the first page that ends a stream is: behind pages that do not.
pub proof fn lemma_first_eos_at(buffer: Seq<Seq<u8>>, n: int)
    requires
        0 <= n <= buffer.len(),
        forall|j: int| 0 <= j < n ==> !page_flag(#[trigger] buffer[j], FLAG_EOS),
        n < buffer.len() ==> page_flag(buffer[n], FLAG_EOS),
    ensures
        first_eos(buffer) == n,
    decreases buffer.len(),
{
    if n > 0 {
        let rest = buffer.drop_first();
        assert(!page_flag(buffer[0], FLAG_EOS));
        assert forall|j: int| 0 <= j < n - 1 implies !page_flag(#[trigger] rest[j], FLAG_EOS) by {
            assert(rest[j] == buffer[j + 1]);
        }
        lemma_first_eos_at(rest, n - 1);
    }
}

/// Cuts a buffer down to the track boundary: keeps the pages at its head
/// that continue a packet and the first page behind them that ends a
/// stream, made to follow the page sent last.
fn fast_forward_pages(buffer: &VecDeque<OggPageBuf>, granule: u64, serial: u32, sequence: u32) -> (kept:
    VecDeque<OggPageBuf>)
    requires
        forall|i: int| 0 <= i < buffer@.len() ==> (#[trigger] buffer@[i]).wf(),
    ensures
        pages_model(kept@) == fast_forwarded(pages_model(buffer@), granule, serial, sequence),
        forall|i: int| 0 <= i < kept@.len() ==> (#[trigger] kept@[i]).wf(),
{
    let ghost all = pages_model(buffer@);
    let mut kept: VecDeque<OggPageBuf> = VecDeque::new();
    let mut lead: usize = 0;
    while lead < buffer.len() && buffer[lead].as_ref().continued()
        invariant
            lead <= buffer@.len(),
            all == pages_model(buffer@),
            kept@.len() == lead,
            forall|i: int| 0 <= i < buffer@.len() ==> (#[trigger] buffer@[i]).wf(),
            forall|j: int| 0 <= j < lead ==> (#[trigger] kept@[j])@ == all[j],
            forall|j: int| 0 <= j < lead ==> page_flag(#[trigger] all[j], FLAG_CONTINUED),
        decreases buffer@.len() - lead,
    {
        let ghost had = kept@;
        let copy = buffer[lead].clone();
        kept.push_back(copy);
        proof {
            assert(all[lead as int] == buffer@[lead as int]@);
            assert forall|j: int| 0 <= j < lead + 1 implies (#[trigger] kept@[j])@ == all[j] by {
                if j < lead {
                    assert(kept@[j] == had[j]);
                }
            }
        }
        lead = lead + 1;
    }
    proof {
        if lead < buffer@.len() {
            assert(all[lead as int] == buffer@[lead as int]@);
        }
        lemma_lead_len_at(all, lead as int);
        assert(pages_model(kept@) =~= all.take(lead as int));
    }
    let ghost rest = all.skip(lead as int);
    let mut at: usize = lead;
    while at < buffer.len() && !buffer[at].as_ref().eos()
        invariant
            lead <= at <= buffer@.len(),
            all == pages_model(buffer@),
            rest == all.skip(lead as int),
            forall|i: int| 0 <= i < buffer@.len() ==> (#[trigger] buffer@[i]).wf(),
            forall|j: int| 0 <= j < at - lead ==> !page_flag(#[trigger] rest[j], FLAG_EOS),
        decreases buffer@.len() - at,
    {
        proof {
            assert(rest[at - lead] == buffer@[at as int]@);
        }
        at = at + 1;
    }
    proof {
        if at < buffer@.len() {
            assert(rest[at - lead] == buffer@[at as int]@);
        }
        lemma_first_eos_at(rest, at - lead);
    }
    if at < buffer.len() {
        let ghost had = kept@;
        let next = if sequence == u32::MAX {
            0
        } else {
            sequence + 1
        };
        let mut tx = buffer[at].clone().begin();
        tx.set_position(granule);
        tx.set_serial(serial);
        tx.set_sequence(next);
        let closing = tx.commit();
        kept.push_back(closing);
        proof {
            assert(pages_model(kept@) =~= all.take(lead as int).push(
                closing_page(rest[at - lead], granule, serial, sequence),
            ));
            assert forall|i: int| 0 <= i < kept@.len() implies (#[trigger] kept@[i]).wf() by {
                if i < had.len() {
                    assert(kept@[i] == had[i]);
                    assert(had[i]@ == all[i]);
                    assert(buffer@[i].wf());
                }
            }
        }
    } else {
        proof {
            assert forall|i: int| 0 <= i < kept@.len() implies (#[trigger] kept@[i]).wf() by {
                assert(kept@[i]@ == all[i]);
                assert(buffer@[i].wf());
            }
        }
    }
    kept
}

impl Core {
    /// Everything but the queue, the fallback track and the clock's
    /// position is as in `other`.
    pub open spec fn same_stream(&self, other: &Core) -> bool {
        &&& self.buffer() == other.buffer()
        &&& self.serial() == other.serial()
        &&& self.prev() == other.prev()
        &&& self.playing_offline() == other.playing_offline()
        &&& self.playing() == other.playing()
        &&& self.history() == other.history()
        &&& self.rate() == other.rate()
    }

    /// The queue is as in `other`.
    pub open spec fn same_queue(&self, other: &Core) -> bool {
        &&& self.queue().items() == other.queue().items()
        &&& self.queue().history() == other.queue().history()
        &&& self.queue().live() == other.queue().live()
        &&& self.queue().capacity() == other.queue().capacity()
    }

    /// The position of the clock is as in `other`.
    pub open spec fn same_clock(&self, other: &Core) -> bool {
        &&& self.clock_last() == other.clock_last()
        &&& self.clock_base() == other.clock_base()
        &&& self.rate() == other.rate()
    }

    /// The buffer after a fast-forward from this state.
    pub open spec fn fast_forwarded_buffer(&self) -> Seq<Seq<u8>> {
        fast_forwarded(self.buffer(), self.prev().0, self.prev().1, self.prev().2)
    }

    /// What a fast-forward makes of this state: the buffer is cut to the
    /// track boundary, and nothing else changes.
    pub open spec fn fast_forward_spec(&self, after: Core) -> bool {
        &&& after.buffer() == self.fast_forwarded_buffer()
        &&& after.serial() == self.serial()
        &&& after.prev() == self.prev()
        &&& after.playing_offline() == self.playing_offline()
        &&& after.playing() == self.playing()
        &&& after.history() == self.history()
        &&& after.same_queue(self)
        &&& after.fallback() == self.fallback()
        &&& after.same_clock(self)
    }

    /// What an enqueue request never changes.
    pub open spec fn enqueue_keeps(&self, after: Core) -> bool {
        &&& after.serial() == self.serial()
        &&& after.prev() == self.prev()
        &&& after.playing_offline() == self.playing_offline()
        &&& after.playing() == self.playing()
        &&& after.history() == self.history()
        &&& after.fallback() == self.fallback()
        &&& after.same_clock(self)
        &&& after.queue().capacity() == self.queue().capacity()
        &&& after.queue().history() == self.queue().history()
    }

    /// A refused track has changed neither queue nor buffer.
    pub open spec fn refused(&self, after: Core) -> bool {
        after.same_queue(self) && after.buffer() == self.buffer()
    }

    /// The track `ready` has gone to the tail of the queue under a handle
    /// that is neither zero nor was in use, and if the fallback track
    /// played, the buffer has been cut to its end.
    pub open spec fn accepted(&self, after: Core, handle: Handle, ready: Seq<u8>) -> bool {
        &&& handle.0 != 0
        &&& !self.queue().live().contains(handle.0)
        &&& after.queue().items() == self.queue().items().push(decorated(handle, ready))
        &&& after.queue().live() == self.queue().live().insert(handle.0)
        &&& after.buffer() == if self.playing_offline() {
            self.fast_forwarded_buffer()
        } else {
            self.buffer()
        }
    }

    /// What an enqueue request makes of this state, whatever handle is
    /// drawn. A track that does not pass the checks, or cannot be made
    /// ready, is refused with the error of `prepare_spec`. A track that
    /// does is refused with `Full` if the queue has no room, and else is
    /// accepted.
    pub open spec fn enqueue_spec(
        &self,
        after: Core,
        track: Seq<u8>,
        metadata: Option<Seq<(Seq<char>, Seq<char>)>>,
        r: Result<Handle, EnqueueTrackError>,
    ) -> bool {
        &&& self.enqueue_keeps(after)
        &&& match prepare_spec(track, metadata, self.rate()) {
            Err(e) => r == Err::<Handle, EnqueueTrackError>(e) && self.refused(after),
            Ok(ready) => {
                &&& r is Ok <==> self.queue().items().len() < self.queue().capacity()
                &&& match r {
                    Ok(handle) => self.accepted(after, handle, ready),
                    Err(e) => e == EnqueueTrackError::Full && self.refused(after),
                }
            },
        }
    }

    /// What an enqueue request makes of this state when `candidate` is the
    /// handle: the track is accepted under it if it passes the checks, the
    /// queue has room, and the handle is neither zero nor in use.
    pub open spec fn enqueue_as_spec(
        &self,
        after: Core,
        candidate: u64,
        track: Seq<u8>,
        metadata: Option<Seq<(Seq<char>, Seq<char>)>>,
        r: Result<Handle, EnqueueTrackError>,
    ) -> bool {
        &&& self.enqueue_keeps(after)
        &&& match prepare_spec(track, metadata, self.rate()) {
            Err(e) => r == Err::<Handle, EnqueueTrackError>(e) && self.refused(after),
            Ok(ready) => if self.queue().items().len() < self.queue().capacity() && candidate != 0
                && !self.queue().live().contains(candidate) {
                r == Ok::<Handle, EnqueueTrackError>(Handle(candidate)) && self.accepted(
                    after,
                    Handle(candidate),
                    ready,
                )
            } else {
                r == Err::<Handle, EnqueueTrackError>(EnqueueTrackError::Full) && self.refused(
                    after,
                )
            },
        }
    }

    /// What a request to replace the fallback track makes of this state: a
    /// track that passes the checks and can be made ready takes the place
    /// of the fallback track under handle 0; another is refused with the
    /// error of `prepare_spec`. Nothing else changes.
    pub open spec fn replace_spec(
        &self,
        after: Core,
        track: Seq<u8>,
        metadata: Option<Seq<(Seq<char>, Seq<char>)>>,
        r: Result<(), ReplaceFallbackError>,
    ) -> bool {
        &&& after.same_stream(self)
        &&& after.same_queue(self)
        &&& after.same_clock(self)
        &&& match prepare_spec(track, metadata, self.rate()) {
            Err(e) => r == Err::<(), ReplaceFallbackError>(fallback_error(e)) && after.fallback()
                == self.fallback(),
            Ok(ready) => r is Ok && after.fallback() == decorated(Handle(0), ready),
        }
    }

    /// What a status request is answered with in this state: the track
    /// that plays, if one of the queue does, with the waiting tracks behind
    /// it, and the tracks played before.
    pub open spec fn status_spec(&self, r: Result<Queue, StatusError>) -> bool {
        match r {
            Ok(queue) => infos_model(queue.upcoming@) == (match self.playing() {
                Some(info) => seq![info],
                None => Seq::<TrackInfoModel>::empty(),
            }) + self.queue().items().map_values(|t: TrackModel| info_of(t)) && infos_model(
                queue.history@,
            ) == self.history(),
            Err(_) => false,
        }
    }

    /// Takes the next page out of the buffer, after a refill if the buffer
    /// is empty.
    pub fn get_next_page_at(&mut self, now: i64) -> (page: OggPageBuf)
        requires
            old(self).wf(),
        ensures
            final(self).wf(),
            page.wf(),
            old(self).due_buffer().len() > 0,
            page@ == old(self).due_buffer()[0],
            final(self).buffer() == old(self).due_buffer().drop_first(),
            final(self).playing() == old(self).due_playing(now),
            final(self).history() == old(self).due_history(),
            final(self).serial() == if old(self).buffer().len() > 0 {
                old(self).serial()
            } else {
                next_number(old(self).serial())
            },
            final(self).playing_offline() == if old(self).buffer().len() > 0 {
                old(self).playing_offline()
            } else {
                old(self).queue().items().len() == 0
            },
            final(self).queue().items() == if old(self).buffer().len() == 0 && old(self).queue().items().len() > 0 {
                old(self).queue().items().drop_first()
            } else {
                old(self).queue().items()
            },
            final(self).queue().capacity() == old(self).queue().capacity(),
            final(self).fallback() == old(self).fallback(),
            final(self).prev() == old(self).prev(),
            final(self).same_clock(old(self)),
    {
        if self.buffer.len() == 0 {
            assert(old(self).buffer() =~= Seq::<Seq<u8>>::empty());
            self.fill_buffer_at(now);
            assert(self.buffer() =~= old(self).due_buffer());
        }
        let ghost held = self.buffer@;
        match self.buffer.pop_front() {
            Some(page) => {
                proof {
                    assert(self.buffer() =~= pages_model(held).drop_first());
                    assert forall|i: int| 0 <= i < self.buffer@.len() implies (
                    #[trigger] self.buffer@[i]).wf() by {
                        assert(self.buffer@[i] == held[i + 1]);
                    }
                }
                page
            },
            None => vstd::pervasive::unreached(),
        }
    }

    /// Notes the page that is about to be sent: its position, serial and
    /// sequence number, and the position of the track that plays.
    fn record(&mut self, page: &OggPageBuf)
        requires
            old(self).wf(),
            page.wf(),
        ensures
            final(self).wf(),
            final(self).prev() == (
                page_position(page@),
                page_serial(page@),
                page_sequence(page@),
            ),
            final(self).playing() == match old(self).playing() {
                Some(info) => Some(positioned(info, page_position(page@))),
                None => None,
            },
            final(self).buffer() == old(self).buffer(),
            final(self).serial() == old(self).serial(),
            final(self).playing_offline() == old(self).playing_offline(),
            final(self).history() == old(self).history(),
            final(self).same_queue(old(self)),
            final(self).fallback() == old(self).fallback(),
            final(self).same_clock(old(self)),
    {
        let view = page.as_ref();
        self.prev_ogg_granule_pos = view.position();
        self.prev_ogg_serial = view.serial();
        self.prev_ogg_sequence = view.sequence();
        let position = view.position();
        let playing = match &self.playing {
            Some(info) => {
                let mut info = info.clone();
                info.sample_position = position;
                Some(info)
            },
            None => None,
        };
        self.playing = playing;
    }

    /// One step of the stream: takes the next page out of the buffer, notes
    /// it as the page sent last, and says how long to wait after sending
    /// it. `now` is the Unix time, for a track that begins to play, and
    /// `elapsed_ms` the milliseconds since the stream started.
    pub fn tick_at(&mut self, now: i64, elapsed_ms: i64) -> (tick: Tick)
        requires
            old(self).wf(),
        ensures
            final(self).wf(),
            tick.page.wf(),
            old(self).due_buffer().len() > 0,
            tick.page@ == old(self).due_buffer()[0],
            final(self).buffer() == old(self).due_buffer().drop_first(),
            final(self).prev() == (
                page_position(tick.page@),
                page_serial(tick.page@),
                page_sequence(tick.page@),
            ),
            final(self).playing() == match old(self).due_playing(now) {
                Some(info) => Some(positioned(info, page_position(tick.page@))),
                None => None,
            },
            final(self).history() == old(self).due_history(),
            final(self).clock_last() == absolute_position(
                old(self).clock_base(),
                old(self).clock_last(),
                page_position(tick.page@),
            ),
            tick.wait_ms == delay_spec(old(self).rate(), elapsed_ms, final(self).clock_last()),
            final(self).rate() == old(self).rate(),
            final(self).fallback() == old(self).fallback(),
            final(self).queue().capacity() == old(self).queue().capacity(),
    {
        let page = self.get_next_page_at(now);
        self.record(&page);
        let wait_ms = self.clock.wait_duration_at(elapsed_ms, &page.as_ref());
        Tick { page, wait_ms }
    }

    /// One step of the stream, by the clock: as `tick_at`, with the Unix
    /// time and the time since the stream started read from the clock.
    pub fn tick(&mut self) -> (tick: Tick)
        requires
            old(self).wf(),
        ensures
            final(self).wf(),
            tick.page.wf(),
            old(self).due_buffer().len() > 0,
            tick.page@ == old(self).due_buffer()[0],
            final(self).buffer() == old(self).due_buffer().drop_first(),
            final(self).prev() == (
                page_position(tick.page@),
                page_serial(tick.page@),
                page_sequence(tick.page@),
            ),
            final(self).history() == old(self).due_history(),
            final(self).rate() == old(self).rate(),
            final(self).fallback() == old(self).fallback(),
            final(self).queue().capacity() == old(self).queue().capacity(),
            final(self).clock_last() == absolute_position(
                old(self).clock_base(),
                old(self).clock_last(),
                page_position(tick.page@),
            ),
            exists|now: i64, elapsed_ms: i64|
                {
                    &&& final(self).playing() == match #[trigger] old(self).due_playing(now) {
                        Some(info) => Some(positioned(info, page_position(tick.page@))),
                        None => None,
                    }
                    &&& tick.wait_ms == #[trigger] delay_spec(
                        old(self).rate(),
                        elapsed_ms,
                        final(self).clock_last(),
                    )
                },
    {
        let page = self.get_next_page_at(unix_now());
        self.record(&page);
        let wait_ms = self.clock.wait_duration(&page.as_ref());
        Tick { page, wait_ms }
    }

    /// Skips to the end of the track in the buffer: what is left of it is
    /// dropped, but for pages at the head that continue a packet and the
    /// first page behind them that ends a stream, which is made to follow
    /// the page sent last.
    pub fn fast_forward_track_boundary(&mut self) -> (r: Result<(), FastForwardError>)
        requires
            old(self).wf(),
        ensures
            final(self).wf(),
            r is Ok,
            old(self).fast_forward_spec(*final(self)),
    {
        let kept = fast_forward_pages(
            &self.buffer,
            self.prev_ogg_granule_pos,
            self.prev_ogg_serial,
            self.prev_ogg_sequence,
        );
        self.buffer = kept;
        Ok(())
    }

    /// Answers a fast-forward request.
    pub fn fast_forward(&mut self, req: FastForwardRequest) -> (r: Result<(), FastForwardError>)
        requires
            old(self).wf(),
        ensures
            final(self).wf(),
            r is Ok,
            old(self).fast_forward_spec(*final(self)),
    {
        match req.kind {
            FastForward::TrackBoundary => self.fast_forward_track_boundary(),
        }
    }

    /// Checks the track of an enqueue request, makes it ready and puts it
    /// at the tail of the queue, under the handle `candidate` if one is
    /// given and under a drawn one if not. If the fallback track plays, the
    /// stream is fast-forwarded to its end.
    fn enqueue(&mut self, req: EnqueueTrackRequest, candidate: Option<u64>) -> (r: Result<
        Handle,
        EnqueueTrackError,
    >)
        requires
            old(self).wf(),
        ensures
            final(self).wf(),
            candidate is None ==> old(self).enqueue_spec(
                *final(self),
                req.track@,
                metadata_model(req.metadata),
                r,
            ),
            candidate is Some ==> old(self).enqueue_as_spec(
                *final(self),
                candidate->Some_0,
                req.track@,
                metadata_model(req.metadata),
                r,
            ),
    {
        let EnqueueTrackRequest { track, metadata } = req;
        let ready = match prepare_track(track, &metadata, self.clock.sample_rate()) {
            Ok(ready) => ready,
            Err(e) => {
                return Err(e);
            },
        };
        let added = match candidate {
            Some(candidate) => self.play_queue.add_track_as(candidate, ready),
            None => self.play_queue.add_track(ready),
        };
        match added {
            Ok(handle) => {
                if self.playing_offline {
                    let _ = self.fast_forward_track_boundary();
                }
                Ok(handle)
            },
            Err(_) => Err(EnqueueTrackError::Full),
        }
    }

    /// Answers an enqueue request. The track is checked as `validation`
    /// says, made ready as `rewritten_track` says, and put at the tail of
    /// the queue under a fresh handle. If the fallback track plays, the
    /// stream is fast-forwarded to its end. A refused track changes
    /// nothing. `Full` is the answer when the queue has no room.
    pub fn enqueue_track(&mut self, req: EnqueueTrackRequest) -> (r: Result<
        Handle,
        EnqueueTrackError,
    >)
        requires
            old(self).wf(),
        ensures
            final(self).wf(),
            old(self).enqueue_spec(
                *final(self),
                req.track@,
                metadata_model(req.metadata),
                r,
            ),
    {
        self.enqueue(req, None)
    }

    /// Answers an enqueue request as `enqueue_track` does, with `candidate`
    /// as the handle: the track is taken if it passes the checks, the
    /// queue has room, and the handle is neither zero nor in use.
    pub fn enqueue_track_as(&mut self, candidate: u64, req: EnqueueTrackRequest) -> (r: Result<
        Handle,
        EnqueueTrackError,
    >)
        requires
            old(self).wf(),
        ensures
            final(self).wf(),
            old(self).enqueue_as_spec(
                *final(self),
                candidate,
                req.track@,
                metadata_model(req.metadata),
                r,
            ),
    {
        self.enqueue(req, Some(candidate))
    }

    /// Answers a request to replace the fallback track. The track is
    /// checked and made ready as an enqueued track is, and takes the place
    /// of the fallback track under handle 0. What is in the buffer plays
    /// on. A refused track changes nothing.
    pub fn replace_fallback(&mut self, req: ReplaceFallbackRequest) -> (r: Result<
        (),
        ReplaceFallbackError,
    >)
        requires
            old(self).wf(),
        ensures
            final(self).wf(),
            old(self).replace_spec(
                *final(self),
                req.track@,
                metadata_model(req.metadata),
                r,
            ),
    {
        let ReplaceFallbackRequest { track, metadata } = req;
        match prepare_track(track, &metadata, self.clock.sample_rate()) {
            Ok(ready) => {
                self.offline_track = Track::from_ogg_track(Handle(0), ready);
                Ok(())
            },
            Err(EnqueueTrackError::InvalidTrack) => Err(ReplaceFallbackError::InvalidTrack),
            Err(EnqueueTrackError::BadSampleRate) => Err(ReplaceFallbackError::BadSampleRate),
            Err(EnqueueTrackError::Full) => Err(ReplaceFallbackError::Full),
        }
    }

    /// Answers a status request: the track that plays, if one of the queue
    /// does, with the waiting tracks behind it, and the tracks played
    /// before.
    pub fn queue_status(&self, _req: StatusRequest) -> (r: Result<Queue, StatusError>)
        requires
            self.wf(),
        ensures
            self.status_spec(r),
    {
        let mut upcoming: Vec<TrackInfo> = Vec::new();
        match &self.playing {
            Some(info) => {
                upcoming.push(info.clone());
            },
            None => {},
        }
        let ghost head = infos_model(upcoming@);
        let waiting = self.play_queue.track_infos();
        let ghost tail = infos_model(waiting@);
        let mut i: usize = 0;
        assert(head + tail.take(0) =~= head);
        while i < waiting.len()
            invariant
                i <= waiting@.len(),
                tail == infos_model(waiting@),
                upcoming@.len() == head.len() + i,
                infos_model(upcoming@) == head + tail.take(i as int),
            decreases waiting@.len() - i,
        {
            let ghost before = upcoming@;
            let info = waiting[i].clone();
            upcoming.push(info);
            proof {
                assert forall|j: int| 0 <= j < upcoming@.len() implies infos_model(upcoming@)[j] == (
                head + tail.take(i + 1))[j] by {
                    if j < before.len() {
                        assert(upcoming@[j] == before[j]);
                        assert(infos_model(before)[j] == (head + tail.take(i as int))[j]);
                    }
                }
                assert(infos_model(upcoming@) =~= head + tail.take(i + 1));
            }
            i = i + 1;
        }
        assert(tail.take(i as int) =~= tail);
        assert(head =~= match self.playing() {
            Some(info) => seq![info],
            None => Seq::<TrackInfoModel>::empty(),
        });
        Ok(Queue { upcoming, history: clone_infos(&self.history) })
    }
}

/// A track whose granule positions do not start at zero, or go back, is
/// refused as invalid.
pub proof fn lemma_non_monotone_rejected(
    track: Seq<u8>,
    metadata: Option<Seq<(Seq<char>, Seq<char>)>>,
    rate: u32,
)
    requires
        !positions_valid(track_pages(track)),
    ensures
        prepare_spec(track, metadata, rate) == Err::<Seq<u8>, EnqueueTrackError>(
            EnqueueTrackError::InvalidTrack,
        ),
{
}

/// A track that passes every other check, and whose identification header
/// gives another sample rate than the stream's, is refused for its sample
/// rate.
pub proof fn lemma_wrong_rate_rejected(
    track: Seq<u8>,
    metadata: Option<Seq<(Seq<char>, Seq<char>)>>,
    rate: u32,
)
    requires
        track.len() > 0,
        is_track(track),
        positions_valid(track_pages(track)),
        has_headers(track),
        track_sample_rate(track) != rate,
    ensures
        prepare_spec(track, metadata, rate) == Err::<Seq<u8>, EnqueueTrackError>(
            EnqueueTrackError::BadSampleRate,
        ),
{
}

/// After a fast-forward on a buffer that holds a page ending a stream and
/// does not begin with a page continuing a packet, the next page taken out
/// is that page, made to follow the page sent last: with its position and
/// serial, the sequence number behind its own, and the checksum that goes
/// with them. The buffer is empty behind it, so the page taken out after
/// it is the first page of the next track, under the next serial.
pub proof fn lemma_fast_forward_then_pops(before: Core, after: Core, later: Core)
    requires
        before.wf(),
        later.wf(),
        before.fast_forward_spec(after),
        lead_len(before.buffer()) == 0,
        first_eos(before.buffer()) < before.buffer().len(),
        later.buffer() == after.due_buffer().drop_first(),
    ensures
        after.due_buffer() == seq![
            closing_page(
                before.buffer()[first_eos(before.buffer())],
                before.prev().0,
                before.prev().1,
                before.prev().2,
            ),
        ],
        is_page(after.due_buffer()[0]),
        page_flag(after.due_buffer()[0], FLAG_EOS),
        page_position(after.due_buffer()[0]) == before.prev().0,
        page_serial(after.due_buffer()[0]) == before.prev().1,
        page_sequence(after.due_buffer()[0]) == next_number(before.prev().2),
        later.due_buffer().len() > 0,
        later.due_buffer()[0] == with_checksum(
            with_serial(track_pages(later.next_track().data)[0], later.serial()),
        ),
{
    before.lemma_buffer_pages();
    lemma_lead_len(before.buffer());
    lemma_fast_forward_leaves_closing_page(
        before.buffer(),
        before.prev().0,
        before.prev().1,
        before.prev().2,
    );
    lemma_first_eos_is_eos(before.buffer());
    lemma_closing_page(
        before.buffer()[first_eos(before.buffer())],
        before.prev().0,
        before.prev().1,
        before.prev().2,
    );
    later.lemma_next_track_has_pages();
}

impl Core {
    /// The track that a refill takes has a page.
    pub proof fn lemma_next_track_has_pages(&self)
        requires
            self.wf(),
        ensures
            track_pages(self.next_track().data).len() > 0,
    {
    }
}

} // verus!
