//! Building pages from packets.
//!
//! A packet of `n` bytes takes `n / 255` segments of 255 bytes and one closing
//! segment of `n % 255` bytes. A packet that is to be continued on the next
//! page is left open: it has no closing segment.

use vstd::prelude::*;
use vstd::slice::slice_subrange;
use crate::byteio::{
    append_bytes, copy_bytes, le_bytes_u32, le_bytes_u64, lemma_decode_encode_u32,
    lemma_decode_encode_u64, u32_to_le,
};
use crate::page::{
    capture, first_piece_segments, is_framed, is_page, lacing_total, lemma_first_piece_bounds,
    lemma_lacing_concat, lemma_lacing_push, lemma_with_checksum_is_page, page_body, page_position,
    page_sequence, page_serial, pieces, segment_table, table_open_ended, with_checksum,
    ChecksumGuard, OggPageBuf, FLAG_BOS, FLAG_CONTINUED, FLAG_EOS,
};
use crate::track::{concat, lemma_concat_push};

verus! {

/// Why packets cannot be laid out as one page.
#[derive(Debug, Clone, Copy, PartialEq, Eq, Structural)]
pub enum OggBuildError {
    /// The packets need more than the 255 segments that a page can have.
    TooManySegments,
    /// The last packet is to be left open, but there is none, or its length
    /// is not a positive multiple of 255.
    BadOpenPacket,
}

/// `k` segments of full length.
pub open spec fn full_segments(k: nat) -> Seq<u8> {
    Seq::new(k, |i: int| 255u8)
}

/// The segment lengths of a closed packet of `len` bytes.
pub open spec fn packet_lacing(len: nat) -> Seq<u8> {
    full_segments(len / 255).push((len % 255) as u8)
}

/// The segment lengths of an open packet of `len` bytes.
pub open spec fn open_lacing(len: nat) -> Seq<u8> {
    full_segments(len / 255)
}

/// The last packet can be left open: it fills a positive number of full
/// segments.
pub open spec fn can_be_open(packets: Seq<Seq<u8>>) -> bool {
    packets.len() > 0 && packets.last().len() > 0 && packets.last().len() % 255 == 0
}

/// The segment table for `packets`; with `open_ended` the last packet is
/// left open.
pub open spec fn lacing_of(packets: Seq<Seq<u8>>, open_ended: bool) -> Seq<u8>
    decreases packets.len(),
{
    if packets.len() == 0 {
        Seq::<u8>::empty()
    } else if packets.len() == 1 && open_ended {
        open_lacing(packets[0].len())
    } else {
        packet_lacing(packets[0].len()) + lacing_of(packets.drop_first(), open_ended)
    }
}

/// The flags byte with the given flags set.
pub open spec fn flags_byte(continued: bool, bos: bool, eos: bool) -> u8 {
    (if continued { FLAG_CONTINUED } else { 0u8 }) | (if bos { FLAG_BOS } else { 0u8 }) | (if eos {
        FLAG_EOS
    } else {
        0u8
    })
}

/// A page header with a zero checksum.
pub open spec fn page_header(
    flags: u8,
    position: u64,
    serial: u32,
    sequence: u32,
    segments: u8,
) -> Seq<u8> {
    capture() + seq![0u8, flags] + le_bytes_u64(position) + le_bytes_u32(serial) + le_bytes_u32(
        sequence,
    ) + seq![0u8, 0u8, 0u8, 0u8, segments]
}

/// The page with the given header fields, segment table and body, and the
/// checksum that goes with them.
pub open spec fn built_page(
    flags: u8,
    position: u64,
    serial: u32,
    sequence: u32,
    table: Seq<u8>,
    body: Seq<u8>,
) -> Seq<u8> {
    with_checksum(page_header(flags, position, serial, sequence, table.len() as u8) + table + body)
}

/// Full segments add up to 255 bytes each.
pub proof fn lemma_full_segments(k: nat)
    ensures
        lacing_total(full_segments(k)) == 255 * k,
        first_piece_segments(full_segments(k)) == k,
    decreases k,
{
    if k > 0 {
        lemma_full_segments((k - 1) as nat);
        assert(full_segments(k).drop_last() =~= full_segments((k - 1) as nat));
        assert(full_segments(k).drop_first() =~= full_segments((k - 1) as nat));
    }
}

/// A closed packet's segments add up to its length, and form the first
/// piece of any table they start.
pub proof fn lemma_packet_lacing(len: nat, rest: Seq<u8>)
    ensures
        packet_lacing(len).len() == len / 255 + 1,
        lacing_total(packet_lacing(len)) == len,
        first_piece_segments(packet_lacing(len) + rest) == len / 255 + 1,
        !table_open_ended(packet_lacing(len)),
{
    lemma_full_segments(len / 255);
    lemma_lacing_push(full_segments(len / 255), (len % 255) as u8);
    lemma_closed_first_piece(len / 255, (len % 255) as u8, rest);
}

/// Full segments and one shorter segment are the first piece of a table.
proof fn lemma_closed_first_piece(k: nat, v: u8, rest: Seq<u8>)
    requires
        v < 255,
    ensures
        first_piece_segments(full_segments(k).push(v) + rest) == k + 1,
    decreases k,
{
    let table = full_segments(k).push(v) + rest;
    if k > 0 {
        lemma_closed_first_piece((k - 1) as nat, v, rest);
        assert(table[0] == 255);
        assert(table.drop_first() =~= full_segments((k - 1) as nat).push(v) + rest);
    } else {
        assert(table[0] == v);
    }
}

/// The table for one more closed packet, and for one more open packet.
pub proof fn lemma_lacing_of_push(packets: Seq<Seq<u8>>, last: Seq<u8>)
    ensures
        lacing_of(packets.push(last), false) == lacing_of(packets, false) + packet_lacing(
            last.len(),
        ),
        lacing_of(packets.push(last), true) == lacing_of(packets, false) + open_lacing(last.len()),
    decreases packets.len(),
{
    let all = packets.push(last);
    if packets.len() == 0 {
        assert(all.drop_first() =~= packets);
        assert(lacing_of(all.drop_first(), false) =~= Seq::<u8>::empty());
        assert(lacing_of(all, false) =~= packet_lacing(last.len()));
        assert(lacing_of(all, true) =~= open_lacing(last.len()));
        assert(lacing_of(packets, false) + packet_lacing(last.len()) =~= packet_lacing(
            last.len(),
        ));
        assert(lacing_of(packets, false) + open_lacing(last.len()) =~= open_lacing(last.len()));
    } else {
        lemma_lacing_of_push(packets.drop_first(), last);
        assert(all.drop_first() =~= packets.drop_first().push(last));
        assert(all[0] == packets[0]);
        let head = packet_lacing(packets[0].len());
        assert(lacing_of(all, false) =~= head + (lacing_of(packets.drop_first(), false)
            + packet_lacing(last.len())));
        assert(lacing_of(all, true) =~= head + (lacing_of(packets.drop_first(), false)
            + open_lacing(last.len())));
        assert(lacing_of(packets, false) =~= head + lacing_of(packets.drop_first(), false));
        assert(lacing_of(all, false) =~= lacing_of(packets, false) + packet_lacing(last.len()));
        assert(lacing_of(all, true) =~= lacing_of(packets, false) + open_lacing(last.len()));
    }
}

/// The segment table of packets cuts their bytes, laid end to end, back
/// into the packets.
pub proof fn lemma_pieces_of_lacing(packets: Seq<Seq<u8>>, open_ended: bool)
    requires
        open_ended ==> can_be_open(packets),
    ensures
        pieces(lacing_of(packets, open_ended), concat(packets)) == packets,
        lacing_total(lacing_of(packets, open_ended)) == concat(packets).len(),
        packets.len() > 0 ==> table_open_ended(lacing_of(packets, open_ended)) == open_ended,
    decreases packets.len(),
{
    let table = lacing_of(packets, open_ended);
    let body = concat(packets);
    if packets.len() == 0 {
        assert(pieces(table, body) =~= packets);
    } else if packets.len() == 1 && open_ended {
        let k = packets[0].len() / 255;
        lemma_full_segments(k);
        assert(packets.drop_first() =~= Seq::<Seq<u8>>::empty());
        assert(concat(packets.drop_first()) =~= Seq::<u8>::empty());
        assert(body =~= packets[0]);
        assert(packets[0] == packets.last());
        assert(k >= 1) by (nonlinear_arith)
            requires
                packets[0].len() > 0,
                packets[0].len() % 255 == 0,
                k == packets[0].len() / 255,
        ;
        assert(packets[0].len() == 255 * k) by (nonlinear_arith)
            requires
                packets[0].len() % 255 == 0,
                k == packets[0].len() / 255,
        ;
        assert(table.take(k as int) =~= table);
        assert(table.skip(k as int) =~= Seq::<u8>::empty());
        assert(body.take(body.len() as int) =~= body);
        assert(pieces(table.skip(k as int), body.skip(body.len() as int)) =~= Seq::<
            Seq<u8>,
        >::empty());
        assert(pieces(table, body) =~= seq![body]);
        assert(pieces(table, body) =~= packets);
        assert(table.last() == 255);
    } else {
        let first = packets[0];
        let rest = packets.drop_first();
        let head = packet_lacing(first.len());
        let tail = lacing_of(rest, open_ended);
        if open_ended {
            assert(rest.last() == packets.last());
        }
        lemma_pieces_of_lacing(rest, open_ended);
        lemma_packet_lacing(first.len(), tail);
        lemma_lacing_concat(head, tail);
        let k = (first.len() / 255 + 1) as int;
        assert(table =~= head + tail);
        assert(table.take(k) =~= head);
        assert(table.skip(k) =~= tail);
        assert(body =~= first + concat(rest));
        assert(body.take(first.len() as int) =~= first);
        assert(body.skip(first.len() as int) =~= concat(rest));
        assert(pieces(table, body) =~= seq![first] + rest);
        assert(seq![first] + rest =~= packets);
        if rest.len() > 0 {
            assert(tail.len() > 0) by {
                lemma_lacing_nonempty(rest, open_ended);
            }
            assert(table.last() == tail.last());
        } else {
            assert(tail =~= Seq::<u8>::empty());
            assert(table =~= head);
        }
    }
}

/// Packets take at least one segment.
pub proof fn lemma_lacing_nonempty(packets: Seq<Seq<u8>>, open_ended: bool)
    requires
        packets.len() > 0,
        open_ended ==> can_be_open(packets),
    ensures
        lacing_of(packets, open_ended).len() > 0,
{
    if packets.len() == 1 && open_ended {
        let k = packets[0].len() / 255;
        assert(packets[0] == packets.last());
        assert(k >= 1) by (nonlinear_arith)
            requires
                packets[0].len() > 0,
                packets[0].len() % 255 == 0,
                k == packets[0].len() / 255,
        ;
    }
}

/// A table that is one piece and ends with a full segment is all full
/// segments.
pub proof fn lemma_open_piece_is_full(table: Seq<u8>)
    requires
        table.len() > 0,
        first_piece_segments(table) == table.len(),
        table.last() == 255,
    ensures
        lacing_total(table) == 255 * table.len(),
    decreases table.len(),
{
    let rest = table.drop_first();
    lemma_first_piece_bounds(rest);
    assert(table =~= seq![table[0]] + rest);
    lemma_lacing_concat(seq![table[0]], rest);
    let one = seq![table[0]];
    assert(one.drop_last() =~= Seq::<u8>::empty());
    assert(one.last() == table[0]);
    assert(lacing_total(one.drop_last()) == 0);
    assert(lacing_total(one) == table[0]);
    assert(table[0] == 255) by {
        if table[0] < 255 {
            assert(first_piece_segments(table) == 1);
            assert(table.last() == table[0]);
        }
    }
    if table.len() == 1 {
        assert(rest =~= Seq::<u8>::empty());
    } else {
        assert(rest.last() == table.last());
        lemma_open_piece_is_full(rest);
    }
}

/// The last packet piece of a table that ends with a full segment fills a
/// positive number of full segments: it can be left open.
pub proof fn lemma_open_last_piece(table: Seq<u8>, body: Seq<u8>)
    requires
        table_open_ended(table),
        lacing_total(table) == body.len(),
    ensures
        can_be_open(pieces(table, body)),
    decreases table.len(),
{
    let k = first_piece_segments(table) as int;
    lemma_first_piece_bounds(table);
    let n = lacing_total(table.take(k)) as int;
    let rest = table.skip(k);
    lemma_lacing_concat(table.take(k), rest);
    assert(table.take(k) + rest =~= table);
    let all = pieces(table, body);
    if k == table.len() {
        assert(table.take(k) =~= table);
        lemma_open_piece_is_full(table);
        assert(rest =~= Seq::<u8>::empty());
        assert(pieces(rest, body.skip(n)) =~= Seq::<Seq<u8>>::empty());
        assert(all =~= seq![body.take(n)]);
        assert(all.last() == body.take(n));
    } else {
        assert(rest.last() == table.last());
        lemma_open_last_piece(rest, body.skip(n));
        let tail = pieces(rest, body.skip(n));
        assert(all =~= seq![body.take(n)] + tail);
        assert(all.last() == tail.last());
    }
}

/// What a built page holds: it is a valid page with the header fields, the
/// segment table and the body it was built from.
pub proof fn lemma_built_page(
    flags: u8,
    position: u64,
    serial: u32,
    sequence: u32,
    table: Seq<u8>,
    body: Seq<u8>,
)
    requires
        table.len() <= 255,
        lacing_total(table) == body.len(),
    ensures
        is_framed(page_header(flags, position, serial, sequence, table.len() as u8) + table + body),
        is_page(built_page(flags, position, serial, sequence, table, body)),
        built_page(flags, position, serial, sequence, table, body)[5] == flags,
        page_position(built_page(flags, position, serial, sequence, table, body)) == position,
        page_serial(built_page(flags, position, serial, sequence, table, body)) == serial,
        page_sequence(built_page(flags, position, serial, sequence, table, body)) == sequence,
        segment_table(built_page(flags, position, serial, sequence, table, body)) == table,
        page_body(built_page(flags, position, serial, sequence, table, body)) == body,
{
    let header = page_header(flags, position, serial, sequence, table.len() as u8);
    let raw = header + table + body;
    let page = with_checksum(raw);
    lemma_decode_encode_u64(position);
    lemma_decode_encode_u32(0, serial);
    lemma_decode_encode_u32(0, sequence);
    assert(header.len() == 27);
    assert(raw.subrange(0, 4) =~= capture());
    assert(raw[4] == 0);
    assert(raw[26] == table.len());
    assert(segment_table(raw) =~= table);
    assert(is_framed(raw));
    lemma_with_checksum_is_page(raw);
    assert(page.len() == raw.len());
    assert(page.subrange(6, 14) =~= le_bytes_u64(position));
    assert(page.subrange(14, 18) =~= le_bytes_u32(serial));
    assert(page.subrange(18, 22) =~= le_bytes_u32(sequence));
    assert(page[26] == raw[26]);
    assert(segment_table(page) =~= table);
    assert(page_body(page) =~= body);
}

/// Which flags a flags byte made of three flags has set.
pub proof fn lemma_flags_byte(continued: bool, bos: bool, eos: bool)
    ensures
        (flags_byte(continued, bos, eos) & FLAG_CONTINUED != 0) == continued,
        (flags_byte(continued, bos, eos) & FLAG_BOS != 0) == bos,
        (flags_byte(continued, bos, eos) & FLAG_EOS != 0) == eos,
{
    let c: u8 = if continued { 1 } else { 0 };
    let b: u8 = if bos { 2 } else { 0 };
    let e: u8 = if eos { 4 } else { 0 };
    assert(((c | b | e) & 1 != 0) == (c == 1) && ((c | b | e) & 2 != 0) == (b == 2) && ((c | b | e)
        & 4 != 0) == (e == 4)) by (bit_vector)
        requires
            c == 0 || c == 1,
            b == 0 || b == 2,
            e == 0 || e == 4,
    ;
}

/// Collects packets and header fields, and lays them out as a page.
pub struct OggBuilder {
    pub packets: Vec<Vec<u8>>,
    /// Leave the last packet open, to be continued on the next page.
    pub open_ended: bool,
    pub position: u64,
    pub serial: u32,
    pub sequence: u32,
    pub continued: bool,
    pub bos: bool,
    pub eos: bool,
}

/// The byte strings held by a vector of byte vectors.
pub open spec fn packets_model(packets: Seq<Vec<u8>>) -> Seq<Seq<u8>> {
    Seq::new(packets.len(), |i: int| packets[i]@)
}

impl OggBuilder {
    /// The packets added so far.
    pub open spec fn model(&self) -> Seq<Seq<u8>> {
        packets_model(self.packets@)
    }

    /// The flags byte that the page will carry.
    pub open spec fn flags(&self) -> u8 {
        flags_byte(self.continued, self.bos, self.eos)
    }

    /// The page that `build` lays out.
    pub open spec fn page_spec(&self) -> Seq<u8> {
        built_page(
            self.flags(),
            self.position,
            self.serial,
            self.sequence,
            lacing_of(self.model(), self.open_ended),
            concat(self.model()),
        )
    }

    /// Whether the packets can be laid out as one page, and if not, why.
    pub open spec fn build_check(&self) -> Result<(), OggBuildError> {
        if self.open_ended && !can_be_open(self.model()) {
            Err(OggBuildError::BadOpenPacket)
        } else if lacing_of(self.model(), self.open_ended).len() > 255 {
            Err(OggBuildError::TooManySegments)
        } else {
            Ok(())
        }
    }

    /// A builder with no packets, all header fields zero and no flag set.
    pub fn new() -> (builder: OggBuilder)
        ensures
            builder.model() == Seq::<Seq<u8>>::empty(),
            !builder.open_ended,
            builder.position == 0,
            builder.serial == 0,
            builder.sequence == 0,
            !builder.continued,
            !builder.bos,
            !builder.eos,
    {
        let builder = OggBuilder {
            packets: Vec::new(),
            open_ended: false,
            position: 0,
            serial: 0,
            sequence: 0,
            continued: false,
            bos: false,
            eos: false,
        };
        assert(builder.model() =~= Seq::<Seq<u8>>::empty());
        builder
    }

    /// Adds a packet behind those added before.
    pub fn add_packet(&mut self, packet: &[u8])
        ensures
            final(self).model() == old(self).model().push(packet@),
            final(self).open_ended == old(self).open_ended,
            final(self).position == old(self).position,
            final(self).serial == old(self).serial,
            final(self).sequence == old(self).sequence,
            final(self).continued == old(self).continued,
            final(self).bos == old(self).bos,
            final(self).eos == old(self).eos,
    {
        let copy = copy_bytes(packet);
        self.packets.push(copy);
        assert(self.model() =~= old(self).model().push(packet@));
    }

    /// The segment table and the body for the packets: their segment
    /// lengths, and their bytes laid end to end.
    fn layout(&self) -> (r: Result<(Vec<u8>, Vec<u8>), OggBuildError>)
        ensures
            match r {
                Ok((table, body)) => (self.open_ended ==> can_be_open(self.model())) && table@
                    == lacing_of(self.model(), self.open_ended) && body@ == concat(self.model())
                    && lacing_total(table@) == body@.len(),
                Err(e) => e == OggBuildError::BadOpenPacket && self.open_ended && !can_be_open(
                    self.model(),
                ),
            },
    {
        let n = self.packets.len();
        let ghost model = self.model();
        if self.open_ended {
            if n == 0 || self.packets[n - 1].len() == 0 || self.packets[n - 1].len() % 255 != 0 {
                return Err(OggBuildError::BadOpenPacket);
            }
        }
        let closed: usize = if self.open_ended { n - 1 } else { n };
        let mut table: Vec<u8> = Vec::new();
        let mut body: Vec<u8> = Vec::new();
        let mut i: usize = 0;
        assert(model.take(0) =~= Seq::<Seq<u8>>::empty());
        while i < closed
            invariant
                i <= closed <= n,
                n == self.packets@.len(),
                model == self.model(),
                table@ == lacing_of(model.take(i as int), false),
                body@ == concat(model.take(i as int)),
            decreases closed - i,
        {
            let packet = &self.packets[i];
            proof {
                assert(model.take(i + 1) =~= model.take(i as int).push(packet@));
                lemma_lacing_of_push(model.take(i as int), packet@);
                lemma_concat_push(model.take(i as int), packet@);
            }
            push_full_segments(&mut table, packet.len() / 255);
            table.push((packet.len() % 255) as u8);
            append_bytes(&mut body, packet.as_slice());
            i = i + 1;
        }
        if self.open_ended {
            let packet = &self.packets[n - 1];
            proof {
                assert(model =~= model.take(n - 1).push(packet@));
                lemma_lacing_of_push(model.take(n - 1), packet@);
                lemma_concat_push(model.take(n - 1), packet@);
            }
            push_full_segments(&mut table, packet.len() / 255);
            append_bytes(&mut body, packet.as_slice());
        } else {
            assert(model.take(n as int) =~= model);
        }
        proof {
            lemma_pieces_of_lacing(model, self.open_ended);
        }
        Ok((table, body))
    }

    /// The flags byte for the builder's flags.
    fn flags_of(continued: bool, bos: bool, eos: bool) -> (flags: u8)
        ensures
            flags == flags_byte(continued, bos, eos),
    {
        let continued: u8 = if continued { FLAG_CONTINUED } else { 0u8 };
        let bos: u8 = if bos { FLAG_BOS } else { 0u8 };
        let eos: u8 = if eos { FLAG_EOS } else { 0u8 };
        continued | bos | eos
    }

    /// Lays the packets out as one page with the builder's header fields
    /// and the checksum that goes with them.
    pub fn build(&self) -> (r: Result<OggPageBuf, OggBuildError>)
        ensures
            match r {
                Ok(page) => self.build_check() is Ok && page@ == self.page_spec() && page.wf(),
                Err(e) => self.build_check() == Err::<(), OggBuildError>(e),
            },
    {
        let (table, body) = match self.layout() {
            Ok(laid) => laid,
            Err(e) => {
                return Err(e);
            },
        };
        if table.len() > 255 {
            return Err(OggBuildError::TooManySegments);
        }
        let flags = OggBuilder::flags_of(self.continued, self.bos, self.eos);
        Ok(
            assemble_page(
                flags,
                self.position,
                self.serial,
                self.sequence,
                table.as_slice(),
                body.as_slice(),
            ),
        )
    }

    /// The `k`th of the pages that `build_pages` lays out. Each page but
    /// the last has 255 segments. All have the builder's position and
    /// serial; their sequence numbers count up from the builder's. A page
    /// that begins within a packet is flagged as continuing; the first page
    /// alone can begin the stream, and the last alone can end it.
    pub open spec fn paged(&self, k: nat) -> Seq<u8> {
        let table = lacing_of(self.model(), self.open_ended);
        built_page(
            flags_byte(
                if k == 0 {
                    self.continued
                } else {
                    table[(255 * k - 1) as int] == 255
                },
                self.bos && k == 0,
                self.eos && chunk_end(table, k) == table.len(),
            ),
            self.position,
            self.serial,
            ((self.sequence + k) % 0x1_0000_0000) as u32,
            chunk(table, k),
            body_chunk(table, concat(self.model()), k),
        )
    }

    /// Lays out the `k`th page: the segments of `table` from `start` and
    /// the bytes of `body` from `body_start` that they stand for.
    fn build_chunk(&self, table: &Vec<u8>, body: &Vec<u8>, k: usize, start: usize, body_start: usize) -> (r:
        (OggPageBuf, usize, usize))
        requires
            table@ == lacing_of(self.model(), self.open_ended),
            body@ == concat(self.model()),
            lacing_total(table@) == body@.len(),
            start == 255 * k,
            start <= table@.len(),
            body_start == lacing_total(table@.take(start as int)),
        ensures
            r.0@ == self.paged(k as nat),
            r.0.wf(),
            r.1 == chunk_end(table@, k as nat),
            start <= r.1 <= table@.len(),
            r.1 == start + 255 || r.1 == table@.len(),
            r.2 == lacing_total(table@.take(r.1 as int)),
    {
        let end: usize = if table.len() - start > 255 {
            start + 255
        } else {
            table.len()
        };
        let segments = slice_subrange(table.as_slice(), start, end);
        let size = total_of(segments);
        let limit = body.len();
        proof {
            lemma_lacing_concat(table@.take(start as int), segments@);
            assert(table@.take(start as int) + segments@ =~= table@.take(end as int));
            lemma_lacing_concat(table@.take(end as int), table@.skip(end as int));
            assert(table@.take(end as int) + table@.skip(end as int) =~= table@);
        }
        assert(body_start + size <= limit);
        let part = slice_subrange(body.as_slice(), body_start, body_start + size);
        let continued = if k == 0 {
            self.continued
        } else {
            table[start - 1] == 255
        };
        let flags = OggBuilder::flags_of(continued, self.bos && k == 0, self.eos && end == table.len());
        let sequence = ((self.sequence as u64 + k as u64) % 0x1_0000_0000) as u32;
        let page = assemble_page(flags, self.position, self.serial, sequence, segments, part);
        (page, end, body_start + size)
    }

    /// Lays the packets out as one page or more, as many as their segments
    /// need.
    pub fn build_pages(&self) -> (r: Result<Vec<OggPageBuf>, OggBuildError>)
        ensures
            match r {
                Ok(pages) => (self.open_ended ==> can_be_open(self.model())) && pages@.len()
                    == page_count(lacing_of(self.model(), self.open_ended).len()) && forall|
                    k: int,
                |
                    0 <= k < pages@.len() ==> (#[trigger] pages@[k])@ == self.paged(k as nat)
                        && pages@[k].wf(),
                Err(e) => e == OggBuildError::BadOpenPacket && self.open_ended && !can_be_open(
                    self.model(),
                ),
            },
    {
        let (table, body) = match self.layout() {
            Ok(laid) => laid,
            Err(e) => {
                return Err(e);
            },
        };
        let mut pages: Vec<OggPageBuf> = Vec::new();
        let mut start: usize = 0;
        let mut body_start: usize = 0;
        let mut k: usize = 0;
        proof {
            assert(table@.take(0) =~= Seq::<u8>::empty());
        }
        while k == 0 || start < table.len()
            invariant
                table@ == lacing_of(self.model(), self.open_ended),
                body@ == concat(self.model()),
                lacing_total(table@) == body@.len(),
                start == 255 * k || start == table@.len(),
                k == 0 ==> start == 0,
                start <= table@.len(),
                start <= 255 * k,
                k > 0 && table@.len() > 0 ==> 255 * (k - 1) < table@.len(),
                k > 0 && table@.len() == 0 ==> k == 1,
                body_start == lacing_total(table@.take(start as int)),
                pages@.len() == k,
                forall|j: int|
                    0 <= j < k ==> (#[trigger] pages@[j])@ == self.paged(j as nat) && pages@[j].wf(),
            decreases table@.len() - start + if k == 0 { 1int } else { 0int },
        {
            let (page, end, body_end) = self.build_chunk(&table, &body, k, start, body_start);
            let ghost before = pages@;
            pages.push(page);
            proof {
                assert forall|j: int| 0 <= j < k + 1 implies (#[trigger] pages@[j])@ == self.paged(
                    j as nat,
                ) && pages@[j].wf() by {
                    if j < k {
                        assert(pages@[j] == before[j]);
                    }
                }
            }
            start = end;
            body_start = body_end;
            k = k + 1;
        }
        Ok(pages)
    }
}

/// How many pages a table of `segments` segments needs: one for every 255
/// segments begun, and one for a table without segments.
pub open spec fn page_count(segments: nat) -> nat {
    if segments == 0 {
        1
    } else {
        ((segments - 1) / 255 + 1) as nat
    }
}

/// Where the segments of the `k`th page end in a table.
pub open spec fn chunk_end(table: Seq<u8>, k: nat) -> int {
    if table.len() - 255 * k > 255 {
        (255 * k + 255) as int
    } else {
        table.len() as int
    }
}

/// The segments of the `k`th page.
pub open spec fn chunk(table: Seq<u8>, k: nat) -> Seq<u8> {
    table.subrange((255 * k) as int, chunk_end(table, k))
}

/// The body of the `k`th page: the bytes that its segments stand for.
pub open spec fn body_chunk(table: Seq<u8>, body: Seq<u8>, k: nat) -> Seq<u8> {
    body.subrange(
        lacing_total(table.take((255 * k) as int)) as int,
        (lacing_total(table.take((255 * k) as int)) + lacing_total(chunk(table, k))) as int,
    )
}

/// The sum of the segment lengths in a table.
fn total_of(table: &[u8]) -> (total: usize)
    requires
        table@.len() <= 255,
    ensures
        total == lacing_total(table@),
{
    let mut total: usize = 0;
    let mut i: usize = 0;
    assert(table@.take(0) =~= Seq::<u8>::empty());
    while i < table.len()
        invariant
            i <= table@.len() <= 255,
            total == lacing_total(table@.take(i as int)),
            total <= 255 * i,
        decreases table@.len() - i,
    {
        proof {
            lemma_lacing_push(table@.take(i as int), table@[i as int]);
            assert(table@.take(i as int).push(table@[i as int]) =~= table@.take(i + 1));
        }
        total = total + table[i] as usize;
        i = i + 1;
    }
    assert(table@.take(i as int) =~= table@);
    total
}

/// Appends `k` segments of full length to a table.
fn push_full_segments(table: &mut Vec<u8>, k: usize)
    ensures
        final(table)@ == old(table)@ + full_segments(k as nat),
{
    let mut j: usize = 0;
    assert(table@ =~= old(table)@ + full_segments(0));
    while j < k
        invariant
            j <= k,
            table@ == old(table)@ + full_segments(j as nat),
        decreases k - j,
    {
        table.push(255);
        j = j + 1;
        assert(table@ =~= old(table)@ + full_segments(j as nat));
    }
}

/// Writes header, table and body one behind the other and sets the
/// checksum.
pub(crate) fn assemble_page(
    flags: u8,
    position: u64,
    serial: u32,
    sequence: u32,
    table: &[u8],
    body: &[u8],
) -> (page: OggPageBuf)
    requires
        table@.len() <= 255,
        lacing_total(table@) == body@.len(),
    ensures
        page@ == built_page(flags, position, serial, sequence, table@, body@),
        page.wf(),
{
    let mut bytes: Vec<u8> = Vec::new();
    bytes.push(0x4f);
    bytes.push(0x67);
    bytes.push(0x67);
    bytes.push(0x53);
    bytes.push(0);
    bytes.push(flags);
    let position_bytes = crate::byteio::u64_to_le(position);
    append_bytes(&mut bytes, position_bytes.as_slice());
    let serial_bytes = u32_to_le(serial);
    append_bytes(&mut bytes, serial_bytes.as_slice());
    let sequence_bytes = u32_to_le(sequence);
    append_bytes(&mut bytes, sequence_bytes.as_slice());
    bytes.push(0);
    bytes.push(0);
    bytes.push(0);
    bytes.push(0);
    bytes.push(table.len() as u8);
    assert(bytes@ =~= page_header(flags, position, serial, sequence, table@.len() as u8));
    append_bytes(&mut bytes, table);
    append_bytes(&mut bytes, body);
    proof {
        lemma_built_page(flags, position, serial, sequence, table@, body@);
    }
    ChecksumGuard::from_framed(bytes).commit()
}

} // verus!
