//! Replacing the comment header of a track.
//!
//! Every page that holds a comment header is laid out anew with the new
//! comment packet in its place; its other packets, its header fields and all
//! other pages stay as they are.

use vstd::prelude::*;
use crate::builder::{
    built_page, can_be_open, flags_byte, lacing_of, lemma_built_page, lemma_flags_byte,
    lemma_open_last_piece, lemma_pieces_of_lacing, OggBuilder,
};
use crate::byteio::append_bytes;
use crate::page::{
    is_page, lemma_page_is_framed, page_flag, page_packets, page_position, page_sequence,
    page_serial, segment_table, table_open_ended, OggPage, OggPageBuf, FLAG_BOS, FLAG_CONTINUED,
    FLAG_EOS,
};
use crate::track::{
    all_pages, concat, is_track, lemma_track_push, track_pages, OggTrack, OggTrackBuf,
};
use crate::vorbis::{find_in_packets, find_in_pages, is_comments, VorbisHeader};

verus! {

/// The packet pieces with every comment header replaced by `packet`.
pub open spec fn replace_comments(pieces: Seq<Seq<u8>>, packet: Seq<u8>) -> Seq<Seq<u8>> {
    Seq::new(pieces.len(), |i: int| if is_comments(pieces[i]) { packet } else { pieces[i] })
}

/// One of the packet pieces is a comment header.
pub open spec fn has_comment_piece(pieces: Seq<Seq<u8>>) -> bool {
    exists|i: int| 0 <= i < pieces.len() && is_comments(#[trigger] pieces[i])
}

/// The rewritten page leaves its last packet open: the page did, and that
/// packet is not replaced.
pub open spec fn stays_open(page: Seq<u8>) -> bool {
    table_open_ended(segment_table(page)) && !is_comments(page_packets(page).last())
}

/// The flags byte with the three flags of `page`.
pub open spec fn copied_flags(page: Seq<u8>) -> u8 {
    flags_byte(
        page_flag(page, FLAG_CONTINUED),
        page_flag(page, FLAG_BOS),
        page_flag(page, FLAG_EOS),
    )
}

/// The page can be laid out anew with `packet` in place of its comment
/// headers, if it has any: the packets fit the 255 segments of a page.
pub open spec fn page_rewritable(page: Seq<u8>, packet: Seq<u8>) -> bool {
    has_comment_piece(page_packets(page)) ==> lacing_of(
        replace_comments(page_packets(page), packet),
        stays_open(page),
    ).len() <= 255
}

/// A packet that the page left open and that is not replaced can be left
/// open in the rewritten page.
pub proof fn lemma_stays_open(page: Seq<u8>, packet: Seq<u8>)
    requires
        is_page(page),
        stays_open(page),
    ensures
        can_be_open(replace_comments(page_packets(page), packet)),
{
    lemma_page_is_framed(page);
    crate::page::lemma_lacing_total_of_page(page);
    lemma_open_last_piece(segment_table(page), crate::page::page_body(page));
}

/// The page with `packet` in place of its comment headers. A page without
/// comment header stays as it is; another is laid out anew, with the
/// position, serial, sequence number and flags it had.
pub open spec fn rewritten_page(page: Seq<u8>, packet: Seq<u8>) -> Seq<u8> {
    if has_comment_piece(page_packets(page)) {
        built_page(
            copied_flags(page),
            page_position(page),
            page_serial(page),
            page_sequence(page),
            lacing_of(replace_comments(page_packets(page), packet), stays_open(page)),
            concat(replace_comments(page_packets(page), packet)),
        )
    } else {
        page
    }
}

/// Every page can be laid out anew.
pub open spec fn pages_rewritable(pages: Seq<Seq<u8>>, packet: Seq<u8>) -> bool {
    forall|i: int| 0 <= i < pages.len() ==> page_rewritable(#[trigger] pages[i], packet)
}

/// The pages, each with `packet` in place of its comment headers.
pub open spec fn rewritten_pages(pages: Seq<Seq<u8>>, packet: Seq<u8>) -> Seq<Seq<u8>> {
    Seq::new(pages.len(), |i: int| rewritten_page(pages[i], packet))
}

/// Rewriting keeps what is not a comment header: the rewritten page is a
/// valid page with the same position, serial, sequence number and flags,
/// and it has the same packet pieces, but for `packet` in place of each
/// comment header. A page without comment header is not touched at all.
pub proof fn lemma_rewrite_preserves_audio(page: Seq<u8>, packet: Seq<u8>)
    requires
        is_page(page),
        page_rewritable(page, packet),
    ensures
        is_page(rewritten_page(page, packet)),
        page_packets(rewritten_page(page, packet)) == replace_comments(page_packets(page), packet),
        forall|i: int|
            0 <= i < page_packets(page).len() && !is_comments(#[trigger] page_packets(page)[i])
                ==> page_packets(rewritten_page(page, packet))[i] == page_packets(page)[i],
        page_position(rewritten_page(page, packet)) == page_position(page),
        page_serial(rewritten_page(page, packet)) == page_serial(page),
        page_sequence(rewritten_page(page, packet)) == page_sequence(page),
        page_flag(rewritten_page(page, packet), FLAG_CONTINUED) == page_flag(page, FLAG_CONTINUED),
        page_flag(rewritten_page(page, packet), FLAG_BOS) == page_flag(page, FLAG_BOS),
        page_flag(rewritten_page(page, packet), FLAG_EOS) == page_flag(page, FLAG_EOS),
        !has_comment_piece(page_packets(page)) ==> rewritten_page(page, packet) == page,
{
    let pieces = page_packets(page);
    let new_pieces = replace_comments(pieces, packet);
    if has_comment_piece(pieces) {
        if stays_open(page) {
            lemma_stays_open(page, packet);
        }
        let table = lacing_of(new_pieces, stays_open(page));
        let body = concat(new_pieces);
        lemma_pieces_of_lacing(new_pieces, stays_open(page));
        lemma_built_page(
            copied_flags(page),
            page_position(page),
            page_serial(page),
            page_sequence(page),
            table,
            body,
        );
        lemma_flags_byte(
            page_flag(page, FLAG_CONTINUED),
            page_flag(page, FLAG_BOS),
            page_flag(page, FLAG_EOS),
        );
    } else {
        assert forall|i: int| 0 <= i < pieces.len() implies new_pieces[i] == pieces[i] by {
            assert(!is_comments(pieces[i]));
        }
        assert(new_pieces =~= pieces);
    }
}

/// A rewritten track has as many pages as it had, each the rewritten page
/// of the page in its place.
pub proof fn lemma_rewritten_pages(pages: Seq<Seq<u8>>, packet: Seq<u8>)
    requires
        all_pages(pages),
        pages_rewritable(pages, packet),
    ensures
        all_pages(rewritten_pages(pages, packet)),
        rewritten_pages(pages, packet).len() == pages.len(),
{
    assert forall|i: int| 0 <= i < pages.len() implies is_page(
        #[trigger] rewritten_pages(pages, packet)[i],
    ) by {
        lemma_rewrite_preserves_audio(pages[i], packet);
    }
}

/// Whether a packet piece is a well-formed comment header.
pub fn is_comment_packet(piece: &[u8]) -> (yes: bool)
    ensures
        yes == is_comments(piece@),
{
    match VorbisHeader::new(piece) {
        Ok(header) => header.as_u8_slice()[0] == 3,
        Err(_) => false,
    }
}

/// Whether one of the packet pieces of a page is a comment header.
fn page_has_comment(page: &OggPage) -> (yes: bool)
    requires
        page.wf(),
    ensures
        yes == has_comment_piece(page_packets(page@)),
{
    let mut packets = page.raw_packets();
    let ghost all = page_packets(page@);
    let ghost mut seen: int = 0;
    proof {
        assert(all.skip(0) =~= all);
    }
    loop
        invariant
            packets.wf(),
            all == page_packets(page@),
            0 <= seen <= all.len(),
            packets.remaining() == all.skip(seen),
            forall|i: int| 0 <= i < seen ==> !is_comments(#[trigger] all[i]),
        decreases all.len() - seen,
    {
        match packets.next() {
            Some(piece) => {
                proof {
                    assert(all.skip(seen)[0] == all[seen]);
                    assert(all.skip(seen).drop_first() =~= all.skip(seen + 1));
                }
                if is_comment_packet(piece) {
                    return true;
                }
                proof {
                    seen = seen + 1;
                }
            },
            None => {
                proof {
                    assert(all.skip(seen).len() == 0);
                }
                return false;
            },
        }
    }
}

/// Lays a page out anew with `packet` in place of its comment headers.
/// `None` if the packets do not fit one page any more.
pub fn rewrite_page(page: &OggPage, packet: &[u8]) -> (r: Option<OggPageBuf>)
    requires
        page.wf(),
    ensures
        r is Some <==> page_rewritable(page@, packet@),
        r is Some ==> r->Some_0@ == rewritten_page(page@, packet@) && r->Some_0.wf(),
{
    if !page_has_comment(page) {
        return Some(page.to_owned());
    }
    let ghost all = page_packets(page@);
    let ghost want = replace_comments(all, packet@);
    let mut builder = OggBuilder::new();
    let mut packets = page.raw_packets();
    let mut replaced_last = false;
    let ghost mut seen: int = 0;
    proof {
        assert(all.skip(0) =~= all);
        assert(want.take(0) =~= Seq::<Seq<u8>>::empty());
    }
    loop
        invariant
            packets.wf(),
            all == page_packets(page@),
            want == replace_comments(all, packet@),
            0 <= seen <= all.len(),
            packets.remaining() == all.skip(seen),
            builder.model() == want.take(seen),
            seen > 0 ==> replaced_last == is_comments(all[seen - 1]),
            !builder.open_ended,
            builder.position == 0,
            builder.serial == 0,
            builder.sequence == 0,
            !builder.continued,
            !builder.bos,
            !builder.eos,
        ensures
            builder.model() == want,
            all.len() > 0 ==> replaced_last == is_comments(all.last()),
            !builder.open_ended,
            builder.position == 0,
            builder.serial == 0,
            builder.sequence == 0,
            !builder.continued,
            !builder.bos,
            !builder.eos,
        decreases all.len() - seen,
    {
        match packets.next() {
            Some(piece) => {
                proof {
                    assert(all.skip(seen)[0] == all[seen]);
                    assert(all.skip(seen).drop_first() =~= all.skip(seen + 1));
                    assert(want.take(seen + 1) =~= want.take(seen).push(want[seen]));
                }
                if is_comment_packet(piece) {
                    builder.add_packet(packet);
                    replaced_last = true;
                } else {
                    builder.add_packet(piece);
                    replaced_last = false;
                }
                proof {
                    seen = seen + 1;
                }
            },
            None => {
                proof {
                    assert(all.skip(seen).len() == 0);
                    assert(want.take(seen) =~= want);
                }
                break ;
            },
        }
    }
    builder.open_ended = page.open_ended() && !replaced_last;
    proof {
        if stays_open(page@) {
            lemma_stays_open(page@, packet@);
        }
    }
    builder.position = page.position();
    builder.serial = page.serial();
    builder.sequence = page.sequence();
    builder.continued = page.continued();
    builder.bos = page.bos();
    builder.eos = page.eos();
    match builder.build() {
        Ok(rewritten) => Some(rewritten),
        Err(_) => None,
    }
}

/// Copies a track, laying out anew every page that holds a comment header,
/// with `packet` in place of the header. `None` if one of those pages
/// cannot hold its packets any more.
pub fn rewrite_comments(track: &OggTrack, packet: &[u8]) -> (r: Option<OggTrackBuf>)
    requires
        track.wf(),
    ensures
        r is Some <==> pages_rewritable(track_pages(track@), packet@),
        r is Some ==> r->Some_0.wf() && track_pages(r->Some_0@) == rewritten_pages(
            track_pages(track@),
            packet@,
        ),
{
    let mut out: Vec<u8> = Vec::new();
    let mut pages = track.pages();
    let ghost all = track_pages(track@);
    let ghost want = rewritten_pages(all, packet@);
    let ghost mut seen: int = 0;
    proof {
        assert(all.skip(0) =~= all);
        assert(want.take(0) =~= Seq::<Seq<u8>>::empty());
        assert(track_pages(out@) =~= Seq::<Seq<u8>>::empty());
    }
    loop
        invariant
            pages.wf(),
            all == track_pages(track@),
            want == rewritten_pages(all, packet@),
            0 <= seen <= all.len(),
            pages.remaining() == all.skip(seen),
            is_track(out@),
            track_pages(out@) == want.take(seen),
            forall|i: int| 0 <= i < seen ==> page_rewritable(#[trigger] all[i], packet@),
        ensures
            is_track(out@),
            track_pages(out@) == want,
            pages_rewritable(all, packet@),
        decreases all.len() - seen,
    {
        match pages.next() {
            Some(page) => {
                proof {
                    assert(all.skip(seen)[0] == all[seen]);
                    assert(all.skip(seen).drop_first() =~= all.skip(seen + 1));
                    assert(want.take(seen + 1) =~= want.take(seen).push(want[seen]));
                }
                match rewrite_page(&page, packet) {
                    Some(rewritten) => {
                        proof {
                            lemma_track_push(out@, rewritten@);
                        }
                        append_bytes(&mut out, rewritten.as_u8_slice());
                        proof {
                            seen = seen + 1;
                        }
                    },
                    None => {
                        return None;
                    },
                }
            },
            None => {
                proof {
                    assert(all.skip(seen).len() == 0);
                    assert(want.take(seen) =~= want);
                }
                break ;
            },
        }
    }
    Some(OggTrackBuf::from_checked(out))
}

} // verus!

verus! {

/// Replacing comment headers by a comment header keeps what is found among
/// packet pieces: a header of another kind is found as before, and a
/// comment header is found if one was.
pub proof fn lemma_find_in_replaced(pieces: Seq<Seq<u8>>, packet: Seq<u8>, kind: u8)
    requires
        is_comments(packet),
    ensures
        kind != 3 ==> find_in_packets(replace_comments(pieces, packet), kind) == find_in_packets(
            pieces,
            kind,
        ),
        find_in_packets(replace_comments(pieces, packet), 3) is Some <==> find_in_packets(
            pieces,
            3,
        ) is Some,
    decreases pieces.len(),
{
    let replaced = replace_comments(pieces, packet);
    if pieces.len() > 0 {
        lemma_find_in_replaced(pieces.drop_first(), packet, kind);
        assert(replaced.drop_first() =~= replace_comments(pieces.drop_first(), packet));
        assert(replaced[0] == if is_comments(pieces[0]) {
            packet
        } else {
            pieces[0]
        });
    }
}

/// Rewriting keeps the headers of a track: the identification header is
/// found as before, and a comment header is found if one was.
pub proof fn lemma_find_in_rewritten(pages: Seq<Seq<u8>>, packet: Seq<u8>)
    requires
        all_pages(pages),
        pages_rewritable(pages, packet),
        is_comments(packet),
    ensures
        find_in_pages(rewritten_pages(pages, packet), 1) == find_in_pages(pages, 1),
        find_in_pages(rewritten_pages(pages, packet), 3) is Some <==> find_in_pages(pages, 3)
            is Some,
    decreases pages.len(),
{
    let rewritten = rewritten_pages(pages, packet);
    if pages.len() > 0 {
        let rest = pages.drop_first();
        assert forall|i: int| 0 <= i < rest.len() implies is_page(#[trigger] rest[i])
            && page_rewritable(rest[i], packet) by {
            assert(rest[i] == pages[i + 1]);
        }
        lemma_find_in_rewritten(rest, packet);
        assert(rewritten.drop_first() =~= rewritten_pages(rest, packet));
        assert(rewritten[0] == rewritten_page(pages[0], packet));
        lemma_rewrite_preserves_audio(pages[0], packet);
        lemma_find_in_replaced(page_packets(pages[0]), packet, 1);
        lemma_find_in_replaced(page_packets(pages[0]), packet, 3);
    }
}

} // verus!
