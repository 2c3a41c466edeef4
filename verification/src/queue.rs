//! Handles, queue entries and the play queue.

use std::collections::HashSet;
use std::collections::VecDeque;
use vstd::prelude::*;
use vstd::pervasive::unreached;
use vstd::utf8::*;
use crate::page::page_position;
use crate::track::{track_pages, OggTrackBuf};
use crate::vorbis::{
    comments_spec, find_in_pages, identification_spec, Comments, CommentsModel, VorbisHeader,
};

verus! {

broadcast use vstd::std_specs::hash::group_hash_axioms;

/// How many played tracks the queue remembers.
pub const HISTORY_CAPACITY: usize = 10;

/// How many candidates are drawn for a new handle before the first unused
/// value behind the last of them is taken.
pub const DRAW_LIMIT: u32 = 1024;

/// An opaque identifier of a queued track. Handle 0 stands for the fallback
/// track and is never given to a queued one.
#[derive(PartialEq, Eq, Hash, Debug, Clone, Copy, Structural)]
pub struct Handle(pub u64);

/// What clients are told about a track.
#[derive(Debug)]
pub struct TrackInfo {
    pub handle: Handle,
    /// Unix time at which the track began to play.
    pub started_at: Option<i64>,
    pub artist: String,
    pub album: String,
    pub title: String,
    pub sample_rate: u64,
    pub sample_count: u64,
    pub sample_position: u64,
}

/// What a `TrackInfo` holds, as plain values.
pub struct TrackInfoModel {
    pub handle: Handle,
    pub started_at: Option<i64>,
    pub artist: Seq<char>,
    pub album: Seq<char>,
    pub title: Seq<char>,
    pub sample_rate: u64,
    pub sample_count: u64,
    pub sample_position: u64,
}

impl View for TrackInfo {
    type V = TrackInfoModel;

    open spec fn view(&self) -> TrackInfoModel {
        TrackInfoModel {
            handle: self.handle,
            started_at: self.started_at,
            artist: self.artist@,
            album: self.album@,
            title: self.title@,
            sample_rate: self.sample_rate,
            sample_count: self.sample_count,
            sample_position: self.sample_position,
        }
    }
}

impl Clone for TrackInfo {
    fn clone(&self) -> (copy: Self)
        ensures
            copy@ == self@,
    {
        TrackInfo {
            handle: self.handle,
            started_at: self.started_at,
            artist: self.artist.clone(),
            album: self.album.clone(),
            title: self.title.clone(),
            sample_rate: self.sample_rate,
            sample_count: self.sample_count,
            sample_position: self.sample_position,
        }
    }
}

/// The models of a list of track infos.
pub open spec fn infos_model(infos: Seq<TrackInfo>) -> Seq<TrackInfoModel> {
    Seq::new(infos.len(), |i: int| infos[i]@)
}

/// A copy of a list of track infos.
pub fn clone_infos(infos: &Vec<TrackInfo>) -> (copy: Vec<TrackInfo>)
    ensures
        infos_model(copy@) == infos_model(infos@),
{
    let mut copy: Vec<TrackInfo> = Vec::new();
    let mut i: usize = 0;
    while i < infos.len()
        invariant
            i <= infos@.len(),
            copy@.len() == i,
            infos_model(copy@) == infos_model(infos@).take(i as int),
        decreases infos@.len() - i,
    {
        let ghost before = copy@;
        let info = infos[i].clone();
        copy.push(info);
        i = i + 1;
        assert forall|j: int| 0 <= j < i implies infos_model(copy@)[j] == infos_model(
            infos@,
        ).take(i as int)[j] by {
            if j < i - 1 {
                assert(copy@[j] == before[j]);
                assert(infos_model(before)[j] == infos_model(infos@).take(i - 1)[j]);
            }
        }
        assert(infos_model(copy@) =~= infos_model(infos@).take(i as int));
    }
    assert(infos_model(infos@).take(i as int) =~= infos_model(infos@));
    copy
}

/// The queue is full.
#[derive(Debug, Clone, Copy, PartialEq, Eq, Structural)]
pub enum PlayQueueError {
    Full,
}

/// `rand::ChaChaRng`, a random number generator. Nothing is known of its
/// state.
#[verifier::external_type_specification]
#[verifier::external_body]
pub struct ExChaChaRng(rand::ChaChaRng);

/// `rand::Rng::next_u64` on a `ChaChaRng`: the next 64 bits of the
/// generator's output. Nothing is said of them.
#[verifier::external_body]
fn next_u64(rng: &mut rand::ChaChaRng) -> u64 {
    rand::Rng::next_u64(rng)
}

/// The value `j` behind `from`, counting on from zero behind the largest.
pub open spec fn probe_at(from: u64, j: int) -> u64 {
    if from + j > u64::MAX {
        (from + j - 0x1_0000_0000_0000_0000) as u64
    } else {
        (from + j) as u64
    }
}

/// The first `n` values from `from` on are all different, so a set that
/// holds them all has at least `n` members.
pub proof fn lemma_probe_bound(from: u64, n: int, held: Set<u64>)
    requires
        held.finite(),
        0 <= n <= 0x1_0000_0000_0000_0000,
        forall|j: int| 0 <= j < n ==> held.contains(#[trigger] probe_at(from, j)),
    ensures
        n <= held.len(),
{
    let seen = Seq::new(n as nat, |j: int| probe_at(from, j));
    assert forall|i: int, j: int| 0 <= i < seen.len() && 0 <= j < seen.len() && i != j implies seen[i]
        != seen[j] by {
        assert(probe_at(from, i) != probe_at(from, j));
    }
    seen.unique_seq_to_set();
    assert forall|x: u64| seen.to_set().contains(x) implies held.contains(x) by {
        let i = choose|i: int| 0 <= i < seen.len() && seen[i] == x;
        assert(held.contains(probe_at(from, i)));
    }
    vstd::set_lib::lemma_len_subset(seen.to_set(), held);
}

/// Hands out handles that are not in use, at most `limit` at a time.
pub struct HandleAllocator {
    rng: rand::ChaChaRng,
    limit: usize,
    allocated: HashSet<u64>,
}

impl HandleAllocator {
    /// The handles in use.
    pub closed spec fn live(&self) -> Set<u64> {
        self.allocated@
    }

    /// How many handles can be in use at a time.
    pub closed spec fn limit(&self) -> usize {
        self.limit
    }

    /// The live set is within the limit, and handle 0 is not in it.
    pub closed spec fn wf(&self) -> bool {
        &&& self.allocated@.finite()
        &&& self.allocated@.len() <= self.limit
        &&& !self.allocated@.contains(0)
    }

    /// An allocator with no handle in use.
    pub fn new(rng: rand::ChaChaRng, limit: usize) -> (halloc: HandleAllocator)
        ensures
            halloc.wf(),
            halloc.live() == Set::<u64>::empty(),
            halloc.limit() == limit,
    {
        HandleAllocator { rng, limit, allocated: HashSet::new() }
    }

    /// How many handles are in use.
    pub fn len(&self) -> (n: usize)
        requires
            self.wf(),
        ensures
            n == self.live().len(),
    {
        self.allocated.len()
    }

    /// Takes `candidate` as a new handle if the limit leaves room, it is not
    /// zero and it is not in use.
    pub fn claim(&mut self, candidate: u64) -> (r: Option<Handle>)
        requires
            old(self).wf(),
        ensures
            final(self).wf(),
            final(self).limit() == old(self).limit(),
            r is Some <==> old(self).live().len() < old(self).limit() && candidate != 0 && !old(self).live().contains(candidate),
            r is Some ==> r == Some(Handle(candidate)) && final(self).live() == old(self).live().insert(candidate),
            r is None ==> final(self).live() == old(self).live(),
    {
        if self.limit <= self.allocated.len() || candidate == 0 || self.allocated.contains(
            &candidate,
        ) {
            return None;
        }
        self.allocated.insert(candidate);
        Some(Handle(candidate))
    }

    /// Draws candidates from the generator until one can be claimed. Fails
    /// when the limit is reached, and then only. Should `DRAW_LIMIT`
    /// candidates in a row be zero or in use, the first value behind the
    /// last of them that can be claimed is taken.
    pub fn generate(&mut self) -> (r: Result<Handle, ()>)
        requires
            old(self).wf(),
        ensures
            final(self).wf(),
            final(self).limit() == old(self).limit(),
            r is Ok <==> old(self).live().len() < old(self).limit(),
            match r {
                Ok(handle) => handle.0 != 0 && !old(self).live().contains(handle.0) && final(self).live() == old(self).live().insert(handle.0),
                Err(_) => final(self).live() == old(self).live(),
            },
    {
        if self.limit <= self.allocated.len() {
            return Err(());
        }
        let mut candidate: u64 = 0;
        let mut draws: u32 = 0;
        while draws < DRAW_LIMIT
            invariant
                self.wf(),
                self.limit() == old(self).limit(),
                self.live() == old(self).live(),
                self.live().len() < self.limit(),
            decreases DRAW_LIMIT - draws,
        {
            candidate = next_u64(&mut self.rng);
            if let Some(handle) = self.claim(candidate) {
                return Ok(handle);
            }
            draws = draws + 1;
        }
        match self.claim_behind(candidate) {
            Some(handle) => Ok(handle),
            None => Err(()),
        }
    }

    /// Claims the first value at or behind `from`, counting on from zero
    /// behind the largest, that is neither zero nor in use. If the limit
    /// leaves room there is one among the first two more values than handles
    /// are in use.
    pub fn claim_behind(&mut self, from: u64) -> (r: Option<Handle>)
        requires
            old(self).wf(),
        ensures
            final(self).wf(),
            final(self).limit() == old(self).limit(),
            r is Some <==> old(self).live().len() < old(self).limit(),
            match r {
                Some(handle) => handle.0 != 0 && !old(self).live().contains(handle.0) && final(self).live() == old(self).live().insert(handle.0) && exists|j: int|
                    0 <= j <= old(self).live().len() + 1 && handle.0 == #[trigger] probe_at(from, j)
                        && forall|i: int|
                        0 <= i < j ==> old(self).live().insert(0).contains(
                            #[trigger] probe_at(from, i),
                        ),
                None => final(self).live() == old(self).live(),
            },
    {
        let in_use = self.allocated.len();
        if self.limit <= in_use {
            return None;
        }
        let mut step: usize = 0;
        loop
            invariant
                self.wf(),
                self.limit() == old(self).limit(),
                self.live() == old(self).live(),
                self.live().len() < self.limit(),
                in_use == self.live().len(),
                step <= in_use + 1,
                forall|j: int|
                    0 <= j < step ==> self.live().insert(0).contains(#[trigger] probe_at(from, j)),
            decreases in_use + 2 - step,
        {
            let behind = step as u64;
            let candidate = if from > u64::MAX - behind {
                from - (u64::MAX - behind) - 1
            } else {
                from + behind
            };
            assert(candidate == probe_at(from, step as int));
            match self.claim(candidate) {
                Some(handle) => {
                    return Some(handle);
                },
                None => {},
            }
            proof {
                lemma_probe_bound(from, step + 1, self.live().insert(0));
            }
            step = step + 1;
        }
    }

    /// Gives a handle back. Fails with the handle if it was not in use.
    pub fn dispose(&mut self, handle: Handle) -> (r: Result<(), Handle>)
        requires
            old(self).wf(),
        ensures
            final(self).wf(),
            final(self).limit() == old(self).limit(),
            final(self).live() == old(self).live().remove(handle.0),
            match r {
                Ok(_) => old(self).live().contains(handle.0),
                Err(h) => h == handle && !old(self).live().contains(handle.0),
            },
    {
        if self.allocated.remove(&handle.0) {
            Ok(())
        } else {
            assert(self.allocated@ =~= old(self).allocated@);
            Err(handle)
        }
    }
}

/// ASCII letters as capitals, other bytes as they are.
pub open spec fn ascii_upper(b: u8) -> u8 {
    if 0x61 <= b <= 0x7a {
        (b - 0x20) as u8
    } else {
        b
    }
}

/// Two byte strings are the same up to the case of ASCII letters.
pub open spec fn same_ignoring_case(a: Seq<u8>, b: Seq<u8>) -> bool {
    &&& a.len() == b.len()
    &&& forall|i: int| 0 <= i < a.len() ==> ascii_upper(#[trigger] a[i]) == ascii_upper(b[i])
}

/// Whether a comment key names the field `name`, whatever the case of its
/// ASCII letters.
pub open spec fn key_matches(key: Seq<char>, name: Seq<char>) -> bool {
    same_ignoring_case(encode_utf8(key), encode_utf8(name))
}

/// The value of the last comment whose key names the field `name`, or the
/// empty string if there is none.
pub open spec fn tagged(comments: Seq<(Seq<char>, Seq<char>)>, name: Seq<char>) -> Seq<char>
    decreases comments.len(),
{
    if comments.len() == 0 {
        Seq::<char>::empty()
    } else if key_matches(comments.last().0, name) {
        comments.last().1
    } else {
        tagged(comments.drop_last(), name)
    }
}

/// The largest granule position among pages, or 0 if there are none.
pub open spec fn max_position(pages: Seq<Seq<u8>>) -> u64
    decreases pages.len(),
{
    if pages.len() == 0 {
        0
    } else if max_position(pages.drop_last()) < page_position(pages.last()) {
        page_position(pages.last())
    } else {
        max_position(pages.drop_last())
    }
}

/// The track has an identification header and a comment header.
pub open spec fn has_headers(track: Seq<u8>) -> bool {
    &&& find_in_pages(track_pages(track), 1) is Some
    &&& find_in_pages(track_pages(track), 3) is Some
}

/// The sample rate in the first identification header of a track.
pub open spec fn track_sample_rate(track: Seq<u8>) -> u32 {
    identification_spec(find_in_pages(track_pages(track), 1)->Some_0)->Ok_0.audio_sample_rate
}

/// The comments in the first comment header of a track.
pub open spec fn track_comments(track: Seq<u8>) -> CommentsModel {
    comments_spec(find_in_pages(track_pages(track), 3)->Some_0)->Ok_0
}

/// Whether two strings are the same up to the case of ASCII letters.
pub fn eq_ignore_ascii_case(a: &str, b: &str) -> (same: bool)
    ensures
        same == key_matches(a@, b@),
{
    let x = a.as_bytes();
    let y = b.as_bytes();
    if x.len() != y.len() {
        return false;
    }
    let mut i: usize = 0;
    while i < x.len()
        invariant
            i <= x@.len(),
            x@.len() == y@.len(),
            x@ == encode_utf8(a@),
            y@ == encode_utf8(b@),
            forall|j: int| 0 <= j < i ==> ascii_upper(#[trigger] x@[j]) == ascii_upper(y@[j]),
        decreases x@.len() - i,
    {
        let p = if 0x61 <= x[i] && x[i] <= 0x7a { x[i] - 0x20 } else { x[i] };
        let q = if 0x61 <= y[i] && y[i] <= 0x7a { y[i] - 0x20 } else { y[i] };
        if p != q {
            assert(ascii_upper(x@[i as int]) != ascii_upper(y@[i as int]));
            return false;
        }
        i = i + 1;
    }
    true
}

/// The value of the last comment whose key names the field `name`.
fn tag_value(comments: &Comments, name: &str) -> (value: String)
    ensures
        value@ == tagged(comments@.comments, name@),
{
    let mut value = String::new();
    let ghost list = comments@.comments;
    let mut i: usize = 0;
    assert(list.take(0) =~= Seq::<(Seq<char>, Seq<char>)>::empty());
    while i < comments.comments.len()
        invariant
            i <= comments.comments@.len(),
            list == comments@.comments,
            value@ == tagged(list.take(i as int), name@),
        decreases comments.comments@.len() - i,
    {
        proof {
            assert(list.take(i + 1).drop_last() =~= list.take(i as int));
            assert(list.take(i + 1).last() == list[i as int]);
        }
        if eq_ignore_ascii_case(comments.comments[i].0.as_str(), name) {
            value = comments.comments[i].1.clone();
        }
        i = i + 1;
    }
    assert(list.take(i as int) =~= list);
    value
}

/// A queue entry: a track and what is known of it.
pub struct Track {
    handle: Handle,
    data: OggTrackBuf,
    comments: Comments,
    artist: String,
    album: String,
    title: String,
    sample_rate: u64,
    sample_count: u64,
}

/// What a `Track` holds, as plain values.
pub struct TrackModel {
    pub handle: Handle,
    pub data: Seq<u8>,
    pub comments: CommentsModel,
    pub artist: Seq<char>,
    pub album: Seq<char>,
    pub title: Seq<char>,
    pub sample_rate: u64,
    pub sample_count: u64,
}

/// What decorating the track `data` under `handle` gives.
pub open spec fn decorated(handle: Handle, data: Seq<u8>) -> TrackModel {
    TrackModel {
        handle,
        data,
        comments: track_comments(data),
        artist: tagged(track_comments(data).comments, "ARTIST"@),
        album: tagged(track_comments(data).comments, "ALBUM"@),
        title: tagged(track_comments(data).comments, "TITLE"@),
        sample_rate: track_sample_rate(data) as u64,
        sample_count: max_position(track_pages(data)),
    }
}

/// What clients are told about a track that has not begun to play.
pub open spec fn info_of(track: TrackModel) -> TrackInfoModel {
    TrackInfoModel {
        handle: track.handle,
        started_at: None,
        artist: track.artist,
        album: track.album,
        title: track.title,
        sample_rate: track.sample_rate,
        sample_count: track.sample_count,
        sample_position: 0,
    }
}

impl View for Track {
    type V = TrackModel;

    closed spec fn view(&self) -> TrackModel {
        TrackModel {
            handle: self.handle,
            data: self.data@,
            comments: self.comments@,
            artist: self.artist@,
            album: self.album@,
            title: self.title@,
            sample_rate: self.sample_rate,
            sample_count: self.sample_count,
        }
    }
}

impl Clone for Track {
    fn clone(&self) -> (copy: Self)
        ensures
            copy@ == self@,
            self.wf() ==> copy.wf(),
    {
        Track {
            handle: self.handle,
            data: self.data.clone(),
            comments: self.comments.clone(),
            artist: self.artist.clone(),
            album: self.album.clone(),
            title: self.title.clone(),
            sample_rate: self.sample_rate,
            sample_count: self.sample_count,
        }
    }
}

/// The largest granule position among the pages of a track.
fn sample_count(ogg: &OggTrackBuf) -> (count: u64)
    requires
        ogg.wf(),
    ensures
        count == max_position(track_pages(ogg@)),
{
    let mut pages = ogg.pages();
    let ghost all = track_pages(ogg@);
    let ghost mut seen: int = 0;
    let mut count: u64 = 0;
    proof {
        assert(all.skip(0) =~= all);
        assert(all.take(0) =~= Seq::<Seq<u8>>::empty());
    }
    loop
        invariant
            pages.wf(),
            0 <= seen <= all.len(),
            pages.remaining() == all.skip(seen),
            count == max_position(all.take(seen)),
        ensures
            count == max_position(all),
        decreases all.len() - seen,
    {
        match pages.next() {
            Some(page) => {
                proof {
                    assert(all.skip(seen)[0] == all[seen]);
                    assert(all.skip(seen).drop_first() =~= all.skip(seen + 1));
                    assert(all.take(seen + 1).drop_last() =~= all.take(seen));
                    assert(all.take(seen + 1).last() == all[seen]);
                    seen = seen + 1;
                }
                let position = page.position();
                if count < position {
                    count = position;
                }
            },
            None => {
                proof {
                    assert(all.skip(seen).len() == 0);
                    assert(all.take(seen) =~= all);
                }
                break ;
            },
        }
    }
    count
}

impl Track {
    /// The track is a valid one with both headers, and the rest is what
    /// decorating it gives.
    pub closed spec fn wf(&self) -> bool {
        &&& self.data.wf()
        &&& has_headers(self.data@)
        &&& self@ == decorated(self.handle, self.data@)
    }

    /// What a well-formed track is known to hold.
    pub proof fn lemma_wf(&self)
        requires
            self.wf(),
        ensures
            crate::track::is_track(self@.data),
            has_headers(self@.data),
            self@ == decorated(self@.handle, self@.data),
    {
    }

    /// Reads sample rate, comments and length out of a track and keeps them
    /// with it. Artist, album and title are the values of the last comments
    /// of those names.
    pub fn from_ogg_track(handle: Handle, ogg: OggTrackBuf) -> (track: Track)
        requires
            ogg.wf(),
            has_headers(ogg@),
        ensures
            track.wf(),
            track@ == decorated(handle, ogg@),
    {
        let id_header = match VorbisHeader::find_identification(ogg.pages()) {
            Ok(header) => match header.identification_header() {
                Some(id_header) => id_header,
                None => unreached(),
            },
            Err(_) => unreached(),
        };
        let comments = match VorbisHeader::find_comments(ogg.pages()) {
            Ok(header) => match header.comments() {
                Some(comments) => comments,
                None => unreached(),
            },
            Err(_) => unreached(),
        };
        let sample_count = sample_count(&ogg);
        let artist = tag_value(&comments, "ARTIST");
        let album = tag_value(&comments, "ALBUM");
        let title = tag_value(&comments, "TITLE");
        Track {
            handle,
            data: ogg,
            comments,
            artist,
            album,
            title,
            sample_rate: id_header.audio_sample_rate as u64,
            sample_count,
        }
    }

    /// The track's bytes.
    pub fn into_inner(self) -> (ogg: OggTrackBuf)
        requires
            self.wf(),
        ensures
            ogg@ == self@.data,
            ogg.wf(),
    {
        self.data
    }

    /// The track's handle.
    pub fn handle(&self) -> (handle: Handle)
        ensures
            handle == self@.handle,
    {
        self.handle
    }

    /// The track's comments.
    pub fn comments(&self) -> (comments: &Comments)
        ensures
            comments@ == self@.comments,
    {
        &self.comments
    }

    /// What clients are told about the track.
    pub fn get_track_info(&self) -> (info: TrackInfo)
        ensures
            info@ == info_of(self@),
    {
        TrackInfo {
            handle: self.handle,
            started_at: None,
            artist: self.artist.clone(),
            album: self.album.clone(),
            title: self.title.clone(),
            sample_rate: self.sample_rate,
            sample_count: self.sample_count,
            sample_position: 0,
        }
    }
}

} // verus!

verus! {

/// The models of a list of tracks.
pub open spec fn tracks_model(tracks: Seq<Track>) -> Seq<TrackModel> {
    Seq::new(tracks.len(), |i: int| tracks[i]@)
}

/// The index of the first of `tracks` with handle `handle`, or their number
/// if there is none.
pub open spec fn position_of(tracks: Seq<TrackModel>, handle: Handle) -> int
    decreases tracks.len(),
{
    if tracks.len() == 0 {
        0
    } else if tracks[0].handle == handle {
        0
    } else {
        1 + position_of(tracks.drop_first(), handle)
    }
}

/// Where the first track with a handle is: behind tracks with other handles.
pub proof fn lemma_position_of(tracks: Seq<TrackModel>, handle: Handle, i: int)
    requires
        0 <= i <= tracks.len(),
        forall|j: int| 0 <= j < i ==> tracks[j].handle != handle,
        i < tracks.len() ==> tracks[i].handle == handle,
    ensures
        position_of(tracks, handle) == i,
    decreases tracks.len(),
{
    if i > 0 {
        let rest = tracks.drop_first();
        assert forall|j: int| 0 <= j < i - 1 implies rest[j].handle != handle by {
            assert(rest[j] == tracks[j + 1]);
        }
        lemma_position_of(rest, handle, i - 1);
    }
}

/// The tracks named by `order`, in that order, and the tracks left over, in
/// the order they had.
pub open spec fn reorder_split(tracks: Seq<TrackModel>, order: Seq<Handle>) -> (
    Seq<TrackModel>,
    Seq<TrackModel>,
)
    decreases order.len(),
{
    if order.len() == 0 {
        (Seq::<TrackModel>::empty(), tracks)
    } else {
        let (picked, rest) = reorder_split(tracks, order.drop_last());
        let at = position_of(rest, order.last());
        if 0 <= at < rest.len() {
            (picked.push(rest[at]), rest.remove(at))
        } else {
            (picked, rest)
        }
    }
}

/// The history with one more entry at its head, cut to `HISTORY_CAPACITY`.
pub open spec fn history_with(history: Seq<TrackInfoModel>, info: TrackInfoModel) -> Seq<
    TrackInfoModel,
> {
    if history.len() < HISTORY_CAPACITY {
        seq![info] + history
    } else {
        (seq![info] + history).take(HISTORY_CAPACITY as int)
    }
}

/// A history without its head.
pub open spec fn history_tail(history: Seq<TrackInfoModel>) -> Seq<TrackInfoModel> {
    if history.len() == 0 {
        history
    } else {
        history.skip(1)
    }
}

/// The tracks waiting to be played, and the tracks played last.
pub struct PlayQueue {
    halloc: HandleAllocator,
    capacity: usize,
    items: VecDeque<Track>,
    history: VecDeque<TrackInfo>,
}

impl PlayQueue {
    /// The waiting tracks, first to play first.
    pub closed spec fn items(&self) -> Seq<TrackModel> {
        tracks_model(self.items@)
    }

    /// The played tracks, last played first.
    pub closed spec fn history(&self) -> Seq<TrackInfoModel> {
        infos_model(self.history@)
    }

    /// How many tracks can wait.
    pub closed spec fn capacity(&self) -> usize {
        self.capacity
    }

    /// The handles in use: those of the waiting and of the remembered tracks.
    pub closed spec fn live(&self) -> Set<u64> {
        self.halloc.live()
    }

    /// The queue and the history are within their capacities, every waiting
    /// track is well formed, and the live handles are those of the waiting
    /// and remembered tracks, each used once.
    pub closed spec fn wf(&self) -> bool {
        &&& self.halloc.wf()
        &&& self.halloc.limit() == self.capacity + HISTORY_CAPACITY
        &&& self.items@.len() <= self.capacity
        &&& self.history@.len() <= HISTORY_CAPACITY
        &&& self.consistent()
    }

    /// The part of `wf` that does not bound the lengths.
    closed spec fn consistent(&self) -> bool {
        &&& self.halloc.wf()
        &&& self.halloc.live().len() == self.items@.len() + self.history@.len()
        &&& forall|i: int| 0 <= i < self.items@.len() ==> (#[trigger] self.items@[i]).wf()
        &&& forall|i: int|
            0 <= i < self.items@.len() ==> self.halloc.live().contains(
                (#[trigger] self.items@[i])@.handle.0,
            )
        &&& forall|i: int|
            0 <= i < self.history@.len() ==> self.halloc.live().contains(
                (#[trigger] self.history@[i]).handle.0,
            )
        &&& forall|i: int, j: int|
            0 <= i < j < self.items@.len() ==> (#[trigger] self.items@[i])@.handle != (
            #[trigger] self.items@[j])@.handle
        &&& forall|i: int, j: int|
            0 <= i < j < self.history@.len() ==> (#[trigger] self.history@[i]).handle != (
            #[trigger] self.history@[j]).handle
        &&& forall|i: int, j: int|
            0 <= i < self.items@.len() && 0 <= j < self.history@.len() ==> (
            #[trigger] self.items@[i])@.handle != (#[trigger] self.history@[j]).handle
    }

    /// No two live handles coincide: the waiting and the remembered tracks
    /// all have handles of their own, none of them zero, and there are as
    /// many live handles as such tracks.
    pub proof fn lemma_handles_unique(&self)
        requires
            self.wf(),
        ensures
            self.items().len() <= self.capacity(),
            self.history().len() <= HISTORY_CAPACITY,
            self.live().len() == self.items().len() + self.history().len(),
            forall|i: int|
                0 <= i < self.items().len() ==> self.live().contains(
                    (#[trigger] self.items()[i]).handle.0,
                ) && self.items()[i].handle.0 != 0,
            forall|i: int|
                0 <= i < self.history().len() ==> self.live().contains(
                    (#[trigger] self.history()[i]).handle.0,
                ) && self.history()[i].handle.0 != 0,
            forall|i: int, j: int|
                0 <= i < j < self.items().len() ==> (#[trigger] self.items()[i]).handle != (
                #[trigger] self.items()[j]).handle,
            forall|i: int, j: int|
                0 <= i < j < self.history().len() ==> (#[trigger] self.history()[i]).handle != (
                #[trigger] self.history()[j]).handle,
            forall|i: int, j: int|
                0 <= i < self.items().len() && 0 <= j < self.history().len() ==> (
                #[trigger] self.items()[i]).handle != (#[trigger] self.history()[j]).handle,
    {
        assert forall|i: int| 0 <= i < self.items().len() implies self.live().contains(
            (#[trigger] self.items()[i]).handle.0,
        ) && self.items()[i].handle.0 != 0 by {
            assert(self.items@[i]@ == self.items()[i]);
        }
        assert forall|i: int| 0 <= i < self.history().len() implies self.live().contains(
            (#[trigger] self.history()[i]).handle.0,
        ) && self.history()[i].handle.0 != 0 by {
            assert(self.history@[i]@ == self.history()[i]);
        }
        assert forall|i: int, j: int| 0 <= i < j < self.items().len() implies (
        #[trigger] self.items()[i]).handle != (#[trigger] self.items()[j]).handle by {
            assert(self.items@[i]@ == self.items()[i]);
            assert(self.items@[j]@ == self.items()[j]);
        }
        assert forall|i: int, j: int| 0 <= i < j < self.history().len() implies (
        #[trigger] self.history()[i]).handle != (#[trigger] self.history()[j]).handle by {
            assert(self.history@[i]@ == self.history()[i]);
            assert(self.history@[j]@ == self.history()[j]);
        }
        assert forall|i: int, j: int|
            0 <= i < self.items().len() && 0 <= j < self.history().len() implies (
        #[trigger] self.items()[i]).handle != (#[trigger] self.history()[j]).handle by {
            assert(self.items@[i]@ == self.items()[i]);
            assert(self.history@[j]@ == self.history()[j]);
        }
    }

    /// An empty queue for up to `capacity` tracks.
    pub fn new(rng: rand::ChaChaRng, capacity: usize) -> (queue: PlayQueue)
        requires
            capacity + HISTORY_CAPACITY <= usize::MAX,
        ensures
            queue.wf(),
            queue.capacity() == capacity,
            queue.items() == Seq::<TrackModel>::empty(),
            queue.history() == Seq::<TrackInfoModel>::empty(),
            queue.live() == Set::<u64>::empty(),
    {
        let queue = PlayQueue {
            halloc: HandleAllocator::new(rng, capacity + HISTORY_CAPACITY),
            capacity,
            items: VecDeque::new(),
            history: VecDeque::new(),
        };
        assert(queue.items() =~= Seq::<TrackModel>::empty());
        assert(queue.history() =~= Seq::<TrackInfoModel>::empty());
        queue
    }

    /// How many tracks wait.
    pub fn len(&self) -> (n: usize)
        ensures
            n == self.items().len(),
    {
        self.items.len()
    }

    /// Puts a decorated track under a handle that was just claimed at the
    /// tail of the queue.
    fn push_claimed(&mut self, handle: Handle, track: OggTrackBuf, Ghost(before): Ghost<Set<u64>>)
        requires
            old(self).halloc.wf(),
            old(self).halloc.limit() == old(self).capacity + HISTORY_CAPACITY,
            old(self).items@.len() < old(self).capacity,
            old(self).history@.len() <= HISTORY_CAPACITY,
            before.finite(),
            !before.contains(handle.0),
            before.len() == old(self).items@.len() + old(self).history@.len(),
            old(self).halloc.live() == before.insert(handle.0),
            forall|i: int| 0 <= i < old(self).items@.len() ==> (#[trigger] old(self).items@[i]).wf(),
            forall|i: int|
                0 <= i < old(self).items@.len() ==> before.contains(
                    (#[trigger] old(self).items@[i])@.handle.0,
                ),
            forall|i: int|
                0 <= i < old(self).history@.len() ==> before.contains(
                    (#[trigger] old(self).history@[i]).handle.0,
                ),
            forall|i: int, j: int|
                0 <= i < j < old(self).items@.len() ==> (#[trigger] old(self).items@[i])@.handle
                    != (#[trigger] old(self).items@[j])@.handle,
            forall|i: int, j: int|
                0 <= i < j < old(self).history@.len() ==> (#[trigger] old(self).history@[i]).handle
                    != (#[trigger] old(self).history@[j]).handle,
            forall|i: int, j: int|
                0 <= i < old(self).items@.len() && 0 <= j < old(self).history@.len() ==> (
                #[trigger] old(self).items@[i])@.handle != (#[trigger] old(self).history@[j]).handle,
            track.wf(),
            has_headers(track@),
        ensures
            final(self).wf(),
            final(self).capacity() == old(self).capacity(),
            final(self).items() == old(self).items().push(decorated(handle, track@)),
            final(self).history() == old(self).history(),
            final(self).live() == old(self).live(),
    {
        let entry = Track::from_ogg_track(handle, track);
        self.items.push_back(entry);
        assert(self.items() =~= old(self).items().push(decorated(handle, track@)));
        assert forall|i: int| 0 <= i < self.items@.len() implies (#[trigger] self.items@[i]).wf()
            && self.halloc.live().contains(self.items@[i]@.handle.0) by {
            if i < old(self).items@.len() {
                assert(self.items@[i] == old(self).items@[i]);
            }
        }
        assert forall|i: int, j: int| 0 <= i < j < self.items@.len() implies (
        #[trigger] self.items@[i])@.handle != (#[trigger] self.items@[j])@.handle by {
            assert(self.items@[i] == old(self).items@[i]);
            if j < old(self).items@.len() {
                assert(self.items@[j] == old(self).items@[j]);
            }
        }
        assert forall|i: int, j: int|
            0 <= i < self.items@.len() && 0 <= j < self.history@.len() implies (
        #[trigger] self.items@[i])@.handle != (#[trigger] self.history@[j]).handle by {
            if i < old(self).items@.len() {
                assert(self.items@[i] == old(self).items@[i]);
            }
        }
    }

    /// Decorates `track` and puts it at the tail of the queue under the
    /// handle `candidate`, if the queue has room and the handle is neither
    /// zero nor in use.
    pub fn add_track_as(&mut self, candidate: u64, track: OggTrackBuf) -> (r: Result<
        Handle,
        PlayQueueError,
    >)
        requires
            old(self).wf(),
            track.wf(),
            has_headers(track@),
        ensures
            final(self).wf(),
            final(self).capacity() == old(self).capacity(),
            final(self).history() == old(self).history(),
            r is Ok <==> old(self).items().len() < old(self).capacity() && candidate != 0 && !old(self).live().contains(candidate),
            match r {
                Ok(handle) => handle == Handle(candidate) && final(self).items() == old(self).items().push(decorated(handle, track@)) && final(self).live() == old(self).live().insert(candidate),
                Err(_) => final(self).items() == old(self).items() && final(self).live() == old(self).live(),
            },
    {
        if self.items.len() >= self.capacity {
            return Err(PlayQueueError::Full);
        }
        let ghost before = self.halloc.live();
        match self.halloc.claim(candidate) {
            Some(handle) => {
                self.push_claimed(handle, track, Ghost(before));
                Ok(handle)
            },
            None => Err(PlayQueueError::Full),
        }
    }

    /// Decorates `track` and puts it at the tail of the queue under a fresh
    /// handle. Fails with `Full` when `capacity` tracks wait already, and
    /// then only.
    pub fn add_track(&mut self, track: OggTrackBuf) -> (r: Result<Handle, PlayQueueError>)
        requires
            old(self).wf(),
            track.wf(),
            has_headers(track@),
        ensures
            final(self).wf(),
            final(self).capacity() == old(self).capacity(),
            final(self).history() == old(self).history(),
            r is Ok <==> old(self).items().len() < old(self).capacity(),
            match r {
                Ok(handle) => handle.0 != 0 && !old(self).live().contains(handle.0) && final(self).items() == old(self).items().push(decorated(handle, track@)) && final(self).live() == old(self).live().insert(handle.0),
                Err(e) => e == PlayQueueError::Full && final(self).items() == old(self).items()
                    && final(self).live() == old(self).live(),
            },
    {
        if self.items.len() >= self.capacity {
            return Err(PlayQueueError::Full);
        }
        let ghost before = self.halloc.live();
        match self.halloc.generate() {
            Ok(handle) => {
                self.push_claimed(handle, track, Ghost(before));
                Ok(handle)
            },
            Err(_) => Err(PlayQueueError::Full),
        }
    }

    /// Takes the track at the head of the queue. What clients are told of
    /// it goes to the head of the history; entries beyond the history's
    /// capacity leave at its tail, and their handles are given back.
    pub fn pop_track(&mut self) -> (r: Option<Track>)
        requires
            old(self).wf(),
        ensures
            final(self).wf(),
            final(self).capacity() == old(self).capacity(),
            match r {
                Some(track) => old(self).items().len() > 0 && track@ == old(self).items()[0]
                    && track.wf() && final(self).items() == old(self).items().drop_first()
                    && final(self).history() == history_with(
                    old(self).history(),
                    info_of(track@),
                ) && final(self).live() == if old(self).history().len() < HISTORY_CAPACITY {
                    old(self).live()
                } else {
                    old(self).live().remove(old(self).history().last().handle.0)
                },
                None => old(self).items().len() == 0 && final(self).items() == old(self).items()
                    && final(self).history() == old(self).history() && final(self).live() == old(self).live(),
            },
    {
        let track = match self.items.pop_front() {
            Some(track) => track,
            None => {
                assert(self.items() =~= old(self).items());
                return None;
            },
        };
        let info = track.get_track_info();
        self.history.push_front(info);
        proof {
            assert(track@ == old(self).items()[0]);
            assert(self.items() =~= old(self).items().drop_first());
            assert(self.history() =~= seq![info_of(track@)] + old(self).history());
            assert forall|i: int| 0 <= i < self.items@.len() implies (
            #[trigger] self.items@[i]).wf() && self.halloc.live().contains(
                self.items@[i]@.handle.0,
            ) by {
                assert(self.items@[i] == old(self).items@[i + 1]);
            }
            assert forall|i: int| 0 <= i < self.history@.len() implies self.halloc.live().contains(
                (#[trigger] self.history@[i]).handle.0,
            ) by {
                if i > 0 {
                    assert(self.history@[i] == old(self).history@[i - 1]);
                }
            }
            assert forall|i: int, j: int| 0 <= i < j < self.items@.len() implies (
            #[trigger] self.items@[i])@.handle != (#[trigger] self.items@[j])@.handle by {
                assert(self.items@[i] == old(self).items@[i + 1]);
                assert(self.items@[j] == old(self).items@[j + 1]);
            }
            assert forall|i: int, j: int| 0 <= i < j < self.history@.len() implies (
            #[trigger] self.history@[i]).handle != (#[trigger] self.history@[j]).handle by {
                assert(self.history@[j] == old(self).history@[j - 1]);
                if i > 0 {
                    assert(self.history@[i] == old(self).history@[i - 1]);
                }
            }
            assert forall|i: int, j: int|
                0 <= i < self.items@.len() && 0 <= j < self.history@.len() implies (
            #[trigger] self.items@[i])@.handle != (#[trigger] self.history@[j]).handle by {
                assert(self.items@[i] == old(self).items@[i + 1]);
                if j > 0 {
                    assert(self.history@[j] == old(self).history@[j - 1]);
                }
            }
        }
        if HISTORY_CAPACITY < self.history.len() {
            let ghost full = self.history@;
            match self.history.pop_back() {
                Some(dropped) => {
                    let _ = self.halloc.dispose(dropped.handle);
                    proof {
                        assert(dropped@ == old(self).history().last());
                        assert(self.history() =~= infos_model(full).take(HISTORY_CAPACITY as int));
                        assert forall|i: int| 0 <= i < self.history@.len() implies (
                        #[trigger] self.history@[i]).handle != dropped.handle by {
                            assert(self.history@[i] == full[i]);
                        }
                        assert forall|i: int| 0 <= i < self.history@.len() implies (
                        #[trigger] self.history@[i]) == full[i] by {}
                    }
                },
                None => {},
            }
        }
        Some(track)
    }

    /// What clients are told about the waiting tracks, in queue order.
    pub fn track_infos(&self) -> (infos: Vec<TrackInfo>)
        ensures
            infos_model(infos@) == self.items().map_values(|t: TrackModel| info_of(t)),
    {
        let mut infos: Vec<TrackInfo> = Vec::new();
        let mut i: usize = 0;
        let ghost want = self.items().map_values(|t: TrackModel| info_of(t));
        while i < self.items.len()
            invariant
                i <= self.items@.len(),
                infos@.len() == i,
                want == self.items().map_values(|t: TrackModel| info_of(t)),
                infos_model(infos@) == want.take(i as int),
            decreases self.items@.len() - i,
        {
            let ghost before = infos@;
            let info = self.items[i].get_track_info();
            infos.push(info);
            i = i + 1;
            assert forall|j: int| 0 <= j < i implies infos_model(infos@)[j] == want.take(
                i as int,
            )[j] by {
                if j < i - 1 {
                    assert(infos@[j] == before[j]);
                    assert(infos_model(before)[j] == want.take(i - 1)[j]);
                }
            }
            assert(infos_model(infos@) =~= want.take(i as int));
        }
        assert(want.take(i as int) =~= want);
        infos
    }

    /// The history without its head, which is the track now playing.
    pub fn get_history(&self) -> (infos: Vec<TrackInfo>)
        ensures
            infos_model(infos@) == history_tail(self.history()),
    {
        let mut infos: Vec<TrackInfo> = Vec::new();
        let ghost want = history_tail(self.history());
        if self.history.len() == 0 {
            assert(infos_model(infos@) =~= want);
            return infos;
        }
        let mut i: usize = 1;
        assert(infos_model(infos@) =~= want.take(0));
        while i < self.history.len()
            invariant
                1 <= i <= self.history@.len(),
                infos@.len() == i - 1,
                want == history_tail(self.history()),
                infos_model(infos@) == want.take(i - 1),
            decreases self.history@.len() - i,
        {
            let ghost before = infos@;
            let info = self.history[i].clone();
            infos.push(info);
            i = i + 1;
            assert forall|j: int| 0 <= j < i - 1 implies infos_model(infos@)[j] == want.take(
                i - 1,
            )[j] by {
                if j < i - 2 {
                    assert(infos@[j] == before[j]);
                    assert(infos_model(before)[j] == want.take(i - 2)[j]);
                }
            }
            assert(infos_model(infos@) =~= want.take(i - 1));
        }
        assert(want.take(i - 1) =~= want);
        infos
    }
}

} // verus!

verus! {

/// Tracks are well formed and have live handles that differ from each
/// other and from those of a history.
pub closed spec fn tracks_ok(tracks: Seq<Track>, history: Seq<TrackInfo>, live: Set<u64>) -> bool {
    &&& forall|i: int| 0 <= i < tracks.len() ==> (#[trigger] tracks[i]).wf()
    &&& forall|i: int| 0 <= i < tracks.len() ==> live.contains((#[trigger] tracks[i])@.handle.0)
    &&& forall|i: int, j: int|
        0 <= i < tracks.len() && 0 <= j < tracks.len() && i != j ==> (#[trigger] tracks[i])@.handle
            != (#[trigger] tracks[j])@.handle
    &&& forall|i: int, j: int|
        0 <= i < tracks.len() && 0 <= j < history.len() ==> (#[trigger] tracks[i])@.handle != (
        #[trigger] history[j]).handle
}

/// Taking a track out keeps the others in order as they were.
proof fn lemma_take_out(tracks: Seq<Track>, at: int, history: Seq<TrackInfo>, live: Set<u64>)
    requires
        tracks_ok(tracks, history, live),
        0 <= at < tracks.len(),
    ensures
        tracks_ok(tracks.remove(at), history, live),
        tracks_model(tracks.remove(at)) == tracks_model(tracks).remove(at),
        forall|i: int|
            0 <= i < tracks.remove(at).len() ==> (#[trigger] tracks.remove(at)[i])@.handle
                != tracks[at]@.handle,
{
    let rest = tracks.remove(at);
    assert forall|i: int| 0 <= i < rest.len() implies (#[trigger] rest[i]) == tracks[if i < at {
        i
    } else {
        i + 1
    }] by {}
    assert forall|i: int| 0 <= i < rest.len() implies (#[trigger] rest[i]).wf() && live.contains(
        rest[i]@.handle.0,
    ) && rest[i]@.handle != tracks[at]@.handle by {
        let k = if i < at { i } else { i + 1 };
        assert(rest[i] == tracks[k]);
    }
    assert forall|i: int, j: int|
        0 <= i < rest.len() && 0 <= j < rest.len() && i != j implies (#[trigger] rest[i])@.handle
        != (#[trigger] rest[j])@.handle by {
        let k = if i < at { i } else { i + 1 };
        let l = if j < at { j } else { j + 1 };
        assert(rest[i] == tracks[k]);
        assert(rest[j] == tracks[l]);
    }
    assert forall|i: int, j: int| 0 <= i < rest.len() && 0 <= j < history.len() implies (
    #[trigger] rest[i])@.handle != (#[trigger] history[j]).handle by {
        let k = if i < at { i } else { i + 1 };
        assert(rest[i] == tracks[k]);
    }
    assert(tracks_model(rest) =~= tracks_model(tracks).remove(at));
}

/// Moving a track from one list to the end of another keeps both in
/// order.
proof fn lemma_move(
    picked: Seq<Track>,
    rest: Seq<Track>,
    at: int,
    history: Seq<TrackInfo>,
    live: Set<u64>,
)
    requires
        tracks_ok(picked + rest, history, live),
        0 <= at < rest.len(),
    ensures
        tracks_ok(picked.push(rest[at]) + rest.remove(at), history, live),
{
    let before = picked + rest;
    let after = picked.push(rest[at]) + rest.remove(at);
    let n = picked.len() as int;
    assert forall|i: int| 0 <= i < after.len() implies (#[trigger] after[i]) == before[if i < n {
        i
    } else if i == n {
        n + at
    } else if i - n - 1 < at {
        i - 1
    } else {
        i
    }] by {}
    assert forall|i: int| 0 <= i < after.len() implies (#[trigger] after[i]).wf() && live.contains(
        after[i]@.handle.0,
    ) by {
        let k = if i < n { i } else if i == n { n + at } else if i - n - 1 < at { i - 1 } else { i };
        assert(after[i] == before[k]);
    }
    assert forall|i: int, j: int|
        0 <= i < after.len() && 0 <= j < after.len() && i != j implies (
    #[trigger] after[i])@.handle != (#[trigger] after[j])@.handle by {
        let k = if i < n { i } else if i == n { n + at } else if i - n - 1 < at { i - 1 } else { i };
        let l = if j < n { j } else if j == n { n + at } else if j - n - 1 < at { j - 1 } else { j };
        assert(after[i] == before[k]);
        assert(after[j] == before[l]);
    }
    assert forall|i: int, j: int| 0 <= i < after.len() && 0 <= j < history.len() implies (
    #[trigger] after[i])@.handle != (#[trigger] history[j]).handle by {
        let k = if i < n { i } else if i == n { n + at } else if i - n - 1 < at { i - 1 } else { i };
        assert(after[i] == before[k]);
    }
}

/// The index of the first of `tracks` with handle `handle`.
fn find_handle(tracks: &VecDeque<Track>, handle: Handle) -> (at: usize)
    ensures
        at == position_of(tracks_model(tracks@), handle),
        at <= tracks@.len(),
        at < tracks@.len() ==> tracks@[at as int]@.handle == handle,
{
    let mut at: usize = 0;
    while at < tracks.len() && tracks[at].handle().0 != handle.0
        invariant
            at <= tracks@.len(),
            forall|j: int| 0 <= j < at ==> tracks_model(tracks@)[j].handle != handle,
        decreases tracks@.len() - at,
    {
        at = at + 1;
    }
    proof {
        lemma_position_of(tracks_model(tracks@), handle, at as int);
    }
    at
}

impl PlayQueue {
    /// The waiting tracks are in order as `wf` asks.
    proof fn lemma_items_ok(&self)
        requires
            self.consistent(),
        ensures
            tracks_ok(self.items@, self.history@, self.halloc.live()),
    {
    }

    /// Takes the track with handle `handle` out of the queue and gives the
    /// handle back. The other tracks keep their order. Without such a track
    /// nothing changes.
    pub fn remove_by_handle(&mut self, handle: Handle)
        requires
            old(self).wf(),
        ensures
            final(self).wf(),
            final(self).capacity() == old(self).capacity(),
            final(self).history() == old(self).history(),
            position_of(old(self).items(), handle) < old(self).items().len() ==> final(self).items() == old(self).items().remove(position_of(old(self).items(), handle)) && final(self).live() == old(self).live().remove(handle.0),
            position_of(old(self).items(), handle) >= old(self).items().len() ==> final(self).items() == old(self).items() && final(self).live() == old(self).live(),
    {
        let at = find_handle(&self.items, handle);
        if at >= self.items.len() {
            return ;
        }
        proof {
            self.lemma_items_ok();
            lemma_take_out(self.items@, at as int, self.history@, self.halloc.live());
        }
        let _ = self.items.remove(at);
        let _ = self.halloc.dispose(handle);
        proof {
            assert forall|i: int, j: int| 0 <= i < j < self.items@.len() implies (
            #[trigger] self.items@[i])@.handle != (#[trigger] self.items@[j])@.handle by {}
        }
    }

    /// Puts the tracks named by `handle_ord` at the head of the queue, in
    /// the order of their names there. The other tracks follow in the
    /// order they had. A name that is not in the queue, or comes again,
    /// counts for nothing.
    pub fn reorder(&mut self, handle_ord: &[Handle])
        requires
            old(self).wf(),
        ensures
            final(self).wf(),
            final(self).capacity() == old(self).capacity(),
            final(self).history() == old(self).history(),
            final(self).live() == old(self).live(),
            final(self).items() == reorder_split(old(self).items(), handle_ord@).0 + reorder_split(
                old(self).items(),
                handle_ord@,
            ).1,
    {
        let mut picked: VecDeque<Track> = VecDeque::new();
        let ghost all = self.items();
        let mut k: usize = 0;
        proof {
            self.lemma_items_ok();
            assert(picked@ + self.items@ =~= self.items@);
            assert(tracks_model(picked@) =~= Seq::<TrackModel>::empty());
            assert(handle_ord@.take(0) =~= Seq::<Handle>::empty());
        }
        while k < handle_ord.len()
            invariant
                k <= handle_ord@.len(),
                self.halloc == old(self).halloc,
                self.history == old(self).history,
                self.capacity == old(self).capacity,
                picked@.len() + self.items@.len() == all.len(),
                tracks_ok(picked@ + self.items@, self.history@, self.halloc.live()),
                reorder_split(all, handle_ord@.take(k as int)) == (
                    tracks_model(picked@),
                    tracks_model(self.items@),
                ),
            decreases handle_ord@.len() - k,
        {
            let at = find_handle(&self.items, handle_ord[k]);
            proof {
                assert(handle_ord@.take(k + 1).drop_last() =~= handle_ord@.take(k as int));
                assert(handle_ord@.take(k + 1).last() == handle_ord@[k as int]);
            }
            if at < self.items.len() {
                let ghost rest = self.items@;
                let ghost had = picked@;
                proof {
                    lemma_move(had, rest, at as int, self.history@, self.halloc.live());
                }
                match self.items.remove(at) {
                    Some(track) => {
                        picked.push_back(track);
                        proof {
                            assert(tracks_model(picked@) =~= tracks_model(had).push(
                                tracks_model(rest)[at as int],
                            ));
                            assert(tracks_model(self.items@) =~= tracks_model(rest).remove(
                                at as int,
                            ));
                        }
                    },
                    None => {},
                }
            }
            k = k + 1;
        }
        proof {
            assert(handle_ord@.take(k as int) =~= handle_ord@);
        }
        let ghost had = picked@;
        let ghost rest = self.items@;
        picked.append(&mut self.items);
        self.items = picked;
        proof {
            assert(tracks_model(self.items@) =~= tracks_model(had) + tracks_model(rest));
            assert forall|i: int, j: int| 0 <= i < j < self.items@.len() implies (
            #[trigger] self.items@[i])@.handle != (#[trigger] self.items@[j])@.handle by {}
        }
    }
}

} // verus!
