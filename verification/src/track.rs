//! Ogg tracks: byte buffers that are pages laid end to end.

use vstd::prelude::*;
use vstd::slice::slice_subrange;
use crate::page::{
    check_spec, is_page, lemma_check_extend, lemma_check_prefix, OggPage, OggPageCheckError,
};
use crate::byteio::copy_bytes;

verus! {

/// Reads `s` as pages laid end to end: `Ok` if that uses up `s` exactly, else
/// the reason why the first unreadable page is none.
pub open spec fn track_check(s: Seq<u8>) -> Result<(), OggPageCheckError>
    decreases s.len(),
{
    if s.len() == 0 {
        Ok(())
    } else {
        match check_spec(s) {
            Err(e) => Err(e),
            Ok(n) => if 0 < n <= s.len() {
                track_check(s.skip(n as int))
            } else {
                Ok(())
            },
        }
    }
}

/// `s` is a track: valid pages laid end to end, with nothing between or
/// behind them.
pub open spec fn is_track(s: Seq<u8>) -> bool {
    track_check(s) is Ok
}

/// The pages of a track, in order.
pub open spec fn track_pages(s: Seq<u8>) -> Seq<Seq<u8>>
    decreases s.len(),
{
    if s.len() == 0 {
        Seq::<Seq<u8>>::empty()
    } else {
        match check_spec(s) {
            Err(_) => Seq::<Seq<u8>>::empty(),
            Ok(n) => if 0 < n <= s.len() {
                seq![s.take(n as int)] + track_pages(s.skip(n as int))
            } else {
                Seq::<Seq<u8>>::empty()
            },
        }
    }
}

/// Byte strings laid end to end.
pub open spec fn concat(parts: Seq<Seq<u8>>) -> Seq<u8>
    decreases parts.len(),
{
    if parts.len() == 0 {
        Seq::<u8>::empty()
    } else {
        parts[0] + concat(parts.drop_first())
    }
}

/// Every part is a valid page.
pub open spec fn all_pages(parts: Seq<Seq<u8>>) -> bool {
    forall|i: int| 0 <= i < parts.len() ==> is_page(#[trigger] parts[i])
}

/// One more part at the end.
pub proof fn lemma_concat_push(parts: Seq<Seq<u8>>, last: Seq<u8>)
    ensures
        concat(parts.push(last)) == concat(parts) + last,
    decreases parts.len(),
{
    if parts.len() == 0 {
        let one = parts.push(last);
        assert(one[0] == last);
        assert(one.drop_first() =~= parts);
        assert(concat(parts) =~= Seq::<u8>::empty());
        assert(concat(one) =~= last + concat(parts));
        assert(concat(parts) + last =~= last);
    } else {
        lemma_concat_push(parts.drop_first(), last);
        assert(parts.push(last).drop_first() =~= parts.drop_first().push(last));
        assert(concat(parts.push(last)) =~= concat(parts) + last);
    }
}

/// A track followed by a valid page is a track, with that page as its last.
pub proof fn lemma_track_push(track: Seq<u8>, page: Seq<u8>)
    requires
        is_track(track),
        is_page(page),
    ensures
        is_track(track + page),
        track_pages(track + page) == track_pages(track).push(page),
    decreases track.len(),
{
    let s = track + page;
    lemma_check_prefix(page);
    if track.len() == 0 {
        assert(s =~= page);
        let rest = page.skip(page.len() as int);
        assert(rest =~= Seq::<u8>::empty());
        assert(page.take(page.len() as int) =~= page);
        assert(track_pages(rest) =~= Seq::<Seq<u8>>::empty());
        assert(track_check(rest) is Ok);
        assert(track_pages(page) =~= seq![page] + track_pages(rest));
        assert(track_pages(track).push(page) =~= seq![page]);
    } else {
        lemma_check_prefix(track);
        let n = check_spec(track)->Ok_0;
        let first = track.subrange(0, n as int);
        assert(track =~= first + track.skip(n as int));
        assert(s =~= first + (track.skip(n as int) + page));
        lemma_check_extend(first, track.skip(n as int) + page);
        lemma_track_push(track.skip(n as int), page);
        assert(s.skip(n as int) =~= track.skip(n as int) + page);
        assert(s.take(n as int) =~= track.take(n as int));
        assert(track_pages(s) =~= track_pages(track).push(page));
    }
}

/// The pages of a track are valid pages, and laid end to end they are the
/// track.
pub proof fn lemma_track_split(s: Seq<u8>)
    requires
        is_track(s),
    ensures
        all_pages(track_pages(s)),
        concat(track_pages(s)) == s,
    decreases s.len(),
{
    if s.len() > 0 {
        lemma_check_prefix(s);
        let n = check_spec(s)->Ok_0;
        lemma_track_split(s.skip(n as int));
        let rest = track_pages(s.skip(n as int));
        let all = track_pages(s);
        assert(all =~= seq![s.take(n as int)] + rest);
        assert(all.drop_first() =~= rest);
        assert(s.take(n as int) =~= s.subrange(0, n as int));
        assert(concat(all) =~= s);
        assert forall|i: int| 0 <= i < all.len() implies is_page(#[trigger] all[i]) by {
            if i > 0 {
                assert(all[i] == rest[i - 1]);
            }
        }
    } else {
        assert(concat(track_pages(s)) =~= s);
    }
}

/// Valid pages laid end to end are a track whose pages they are.
pub proof fn lemma_track_concat(parts: Seq<Seq<u8>>)
    requires
        all_pages(parts),
    ensures
        is_track(concat(parts)),
        track_pages(concat(parts)) == parts,
    decreases parts.len(),
{
    if parts.len() > 0 {
        let first = parts[0];
        let rest = parts.drop_first();
        assert forall|i: int| 0 <= i < rest.len() implies is_page(#[trigger] rest[i]) by {
            assert(rest[i] == parts[i + 1]);
        }
        lemma_track_concat(rest);
        lemma_check_prefix(first);
        lemma_check_extend(first, concat(rest));
        let s = concat(parts);
        assert(s.skip(first.len() as int) =~= concat(rest));
        assert(s.take(first.len() as int) =~= first);
        assert(track_pages(s) =~= parts);
    }
}

/// A byte string is a track exactly if it is valid pages laid end to end.
pub proof fn lemma_track_iff_concat(s: Seq<u8>)
    ensures
        is_track(s) <==> exists|parts: Seq<Seq<u8>>| all_pages(parts) && #[trigger] concat(parts) == s,
{
    if is_track(s) {
        lemma_track_split(s);
        assert(all_pages(track_pages(s)) && concat(track_pages(s)) == s);
    }
    if exists|parts: Seq<Seq<u8>>| all_pages(parts) && #[trigger] concat(parts) == s {
        let parts = choose|parts: Seq<Seq<u8>>| all_pages(parts) && #[trigger] concat(parts) == s;
        lemma_track_concat(parts);
    }
}

/// A track, borrowed.
#[derive(Clone, Copy)]
pub struct OggTrack<'a> {
    inner: &'a [u8],
}

impl<'a> View for OggTrack<'a> {
    type V = Seq<u8>;

    closed spec fn view(&self) -> Seq<u8> {
        self.inner@
    }
}

impl<'a> OggTrack<'a> {
    /// The bytes are valid pages laid end to end.
    pub open spec fn wf(&self) -> bool {
        is_track(self@)
    }

    /// Checks that `buf` is valid pages laid end to end, with no bytes
    /// behind the last and no page cut short.
    pub fn new(buf: &'a [u8]) -> (r: Result<OggTrack<'a>, OggPageCheckError>)
        ensures
            match r {
                Ok(track) => track@ == buf@ && track.wf(),
                Err(e) => track_check(buf@) == Err::<(), OggPageCheckError>(e),
            },
    {
        let mut offset: usize = 0;
        assert(buf@.skip(0) =~= buf@);
        while offset < buf.len()
            invariant
                offset <= buf@.len(),
                track_check(buf@) == track_check(buf@.skip(offset as int)),
            decreases buf@.len() - offset,
        {
            let rest = slice_subrange(buf, offset, buf.len());
            assert(rest@ =~= buf@.skip(offset as int));
            match OggPage::new(rest) {
                Ok(page) => {
                    proof {
                        lemma_check_prefix(rest@);
                        assert(rest@.skip(page@.len() as int) =~= buf@.skip(
                            offset + page@.len(),
                        ));
                    }
                    offset = offset + page.as_u8_slice().len();
                },
                Err(e) => {
                    return Err(e);
                },
            }
        }
        Ok(OggTrack { inner: buf })
    }

    /// The track's bytes.
    pub fn as_u8_slice(&self) -> (bytes: &'a [u8])
        ensures
            bytes@ == self@,
    {
        self.inner
    }

    /// An owned copy of the track.
    pub fn to_owned(&self) -> (track: OggTrackBuf)
        requires
            self.wf(),
        ensures
            track@ == self@,
            track.wf(),
    {
        OggTrackBuf { inner: copy_bytes(self.inner) }
    }

    /// An iterator over the pages of the track.
    pub fn pages(&self) -> (iter: TrackPageIter<'a>)
        requires
            self.wf(),
        ensures
            iter.wf(),
            iter.remaining() == track_pages(self@),
    {
        assert(self@.skip(0) =~= self@);
        TrackPageIter { data: self.inner, offset: 0 }
    }
}

/// An iterator over the pages of a track.
pub struct TrackPageIter<'a> {
    data: &'a [u8],
    offset: usize,
}

impl<'a> TrackPageIter<'a> {
    /// The pages not handed out yet.
    pub closed spec fn remaining(&self) -> Seq<Seq<u8>> {
        track_pages(self.data@.skip(self.offset as int))
    }

    /// The cursor lies on a page boundary of a track.
    pub closed spec fn wf(&self) -> bool {
        &&& self.offset <= self.data@.len()
        &&& is_track(self.data@.skip(self.offset as int))
    }

    /// The next page, or `None` behind the last.
    pub fn next(&mut self) -> (r: Option<OggPage<'a>>)
        requires
            old(self).wf(),
        ensures
            final(self).wf(),
            match r {
                Some(page) => old(self).remaining().len() > 0 && page@ == old(self).remaining()[0] && page.wf() && final(self).remaining() == old(self).remaining().drop_first(),
                None => old(self).remaining().len() == 0 && final(self).remaining() == old(self).remaining(),
            },
    {
        if self.data.len() == self.offset {
            return None;
        }
        let rest = slice_subrange(self.data, self.offset, self.data.len());
        proof {
            assert(rest@ =~= self.data@.skip(self.offset as int));
            lemma_check_prefix(rest@);
        }
        match OggPage::new(rest) {
            Ok(page) => {
                proof {
                    assert(rest@.skip(page@.len() as int) =~= self.data@.skip(
                        self.offset + page@.len(),
                    ));
                    assert(rest@.take(page@.len() as int) =~= page@);
                    assert((seq![page@] + track_pages(rest@.skip(page@.len() as int))).drop_first()
                        =~= track_pages(rest@.skip(page@.len() as int)));
                }
                self.offset = self.offset + page.as_u8_slice().len();
                Some(page)
            },
            Err(_) => None,
        }
    }
}

/// A track, owned.
pub struct OggTrackBuf {
    inner: Vec<u8>,
}

impl Clone for OggTrackBuf {
    fn clone(&self) -> (copy: Self)
        ensures
            copy@ == self@,
    {
        OggTrackBuf { inner: copy_bytes(self.inner.as_slice()) }
    }
}

impl View for OggTrackBuf {
    type V = Seq<u8>;

    closed spec fn view(&self) -> Seq<u8> {
        self.inner@
    }
}

impl OggTrackBuf {
    /// The bytes are valid pages laid end to end.
    pub open spec fn wf(&self) -> bool {
        is_track(self@)
    }

    /// Checks that `buf` is valid pages laid end to end and takes it.
    pub fn new(buf: Vec<u8>) -> (r: Result<OggTrackBuf, OggPageCheckError>)
        ensures
            match r {
                Ok(track) => track@ == buf@ && track.wf(),
                Err(e) => track_check(buf@) == Err::<(), OggPageCheckError>(e),
            },
    {
        match OggTrack::new(buf.as_slice()) {
            Ok(_) => Ok(OggTrackBuf { inner: buf }),
            Err(e) => Err(e),
        }
    }

    /// Takes bytes that are known to be a track.
    pub(crate) fn from_checked(buf: Vec<u8>) -> (track: OggTrackBuf)
        requires
            is_track(buf@),
        ensures
            track@ == buf@,
            track.wf(),
    {
        OggTrackBuf { inner: buf }
    }

    /// The track's bytes, owned.
    pub fn into_inner(self) -> (bytes: Vec<u8>)
        ensures
            bytes@ == self@,
    {
        self.inner
    }

    /// The track, borrowed.
    pub fn as_ref(&self) -> (track: OggTrack<'_>)
        requires
            self.wf(),
        ensures
            track@ == self@,
            track.wf(),
    {
        OggTrack { inner: self.inner.as_slice() }
    }

    /// The track's bytes.
    pub fn as_u8_slice(&self) -> (bytes: &[u8])
        ensures
            bytes@ == self@,
    {
        self.inner.as_slice()
    }

    /// An iterator over the pages of the track.
    pub fn pages(&self) -> (iter: TrackPageIter<'_>)
        requires
            self.wf(),
        ensures
            iter.wf(),
            iter.remaining() == track_pages(self@),
    {
        self.as_ref().pages()
    }
}

} // verus!
