//! Ogg pages: the framing unit of an Ogg stream.
//!
//! A page is a byte string: a 27-byte header, a table of segment lengths and
//! the body those lengths add up to. Every accessor reads the bytes, so a
//! sink sees exactly what was checked.

use vstd::prelude::*;
use vstd::slice::slice_subrange;
use crate::byteio::{
    le_bytes_u32, le_bytes_u64, le_u32, le_u64, lemma_decode_encode_u32, lemma_decode_encode_u64,
    read_u32_le, read_u64_le, write_u32_le, write_u64_le, copy_bytes,
};
use crate::crc::{crc32, crc_of, lemma_crc_push};

verus! {

/// Length of the fixed part of a page header.
pub const HEADER_LEN: usize = 27;

/// Offset of the flags byte.
pub const FLAGS_OFFSET: usize = 5;

/// Offset of the granule position (8 bytes, little-endian).
pub const POSITION_OFFSET: usize = 6;

/// Offset of the bitstream serial (4 bytes, little-endian).
pub const SERIAL_OFFSET: usize = 14;

/// Offset of the page sequence number (4 bytes, little-endian).
pub const SEQUENCE_OFFSET: usize = 18;

/// Offset of the checksum (4 bytes, little-endian).
pub const CHECKSUM_OFFSET: usize = 22;

/// Offset of the segment count.
pub const SEGMENTS_OFFSET: usize = 26;

/// Flag bit: the first packet of the page continues one from the page before.
pub const FLAG_CONTINUED: u8 = 0x01;

/// Flag bit: first page of a logical bitstream.
pub const FLAG_BOS: u8 = 0x02;

/// Flag bit: last page of a logical bitstream.
pub const FLAG_EOS: u8 = 0x04;

/// Why a byte string is not a page.
#[derive(Debug, Clone, Copy, PartialEq, Eq, Structural)]
pub enum OggPageCheckError {
    TooShort,
    BadCapture,
    BadVersion,
    BadCrc,
}

/// The capture pattern `OggS`.
pub open spec fn capture() -> Seq<u8> {
    seq![0x4fu8, 0x67u8, 0x67u8, 0x53u8]
}

/// The sum of the segment lengths in a segment table.
pub open spec fn lacing_total(table: Seq<u8>) -> nat
    decreases table.len(),
{
    if table.len() == 0 {
        0
    } else {
        lacing_total(table.drop_last()) + table.last() as nat
    }
}

/// The segment table of a page: the `s[26]` bytes that follow the fixed header.
pub open spec fn segment_table(s: Seq<u8>) -> Seq<u8>
    recommends
        s.len() >= 27 + s[26],
{
    s.subrange(27, 27 + s[26] as int)
}

/// Header length (fixed part and segment table) and body length of the page
/// that `s` starts with, or the reason why it starts with none. The checksum
/// is not looked at.
pub open spec fn measure_spec(s: Seq<u8>) -> Result<(nat, nat), OggPageCheckError> {
    if s.len() < 27 {
        Err(OggPageCheckError::TooShort)
    } else if s.subrange(0, 4) != capture() {
        Err(OggPageCheckError::BadCapture)
    } else if s[4] != 0 {
        Err(OggPageCheckError::BadVersion)
    } else if s.len() < 27 + s[26] {
        Err(OggPageCheckError::TooShort)
    } else if s.len() < 27 + s[26] + lacing_total(segment_table(s)) {
        Err(OggPageCheckError::TooShort)
    } else {
        Ok(((27 + s[26]) as nat, lacing_total(segment_table(s))))
    }
}

/// `s` is framed as exactly one page: header, table and body, nothing more.
pub open spec fn is_framed(s: Seq<u8>) -> bool {
    match measure_spec(s) {
        Ok((h, b)) => s.len() == h + b,
        Err(_) => false,
    }
}

/// The page with its checksum field read as zeros.
pub open spec fn zero_checksum(s: Seq<u8>) -> Seq<u8> {
    Seq::new(s.len(), |i: int| if 22 <= i < 26 { 0u8 } else { s[i] })
}

/// The checksum a page must carry: the CRC of the page with the checksum
/// field zeroed.
pub open spec fn page_crc(s: Seq<u8>) -> u32 {
    crc_of(zero_checksum(s))
}

/// The checksum stored in the page.
pub open spec fn stored_crc(s: Seq<u8>) -> u32
    recommends
        s.len() >= 26,
{
    le_u32(s.subrange(22, 26))
}

/// The length of the valid page that `s` starts with, or the first reason
/// why it starts with none.
#[verifier::opaque]
pub open spec fn check_spec(s: Seq<u8>) -> Result<nat, OggPageCheckError> {
    match measure_spec(s) {
        Err(e) => Err(e),
        Ok((h, b)) => if stored_crc(s) == page_crc(s.subrange(0, (h + b) as int)) {
            Ok(h + b)
        } else {
            Err(OggPageCheckError::BadCrc)
        },
    }
}

/// `s` is exactly one valid page.
pub open spec fn is_page(s: Seq<u8>) -> bool {
    check_spec(s) == Ok::<nat, OggPageCheckError>(s.len())
}

/// Granule position of a page.
pub open spec fn page_position(s: Seq<u8>) -> u64 {
    le_u64(s.subrange(6, 14))
}

/// Bitstream serial of a page.
pub open spec fn page_serial(s: Seq<u8>) -> u32 {
    le_u32(s.subrange(14, 18))
}

/// Sequence number of a page.
pub open spec fn page_sequence(s: Seq<u8>) -> u32 {
    le_u32(s.subrange(18, 22))
}

/// Whether flag `mask` is set in the page's flags byte.
pub open spec fn page_flag(s: Seq<u8>, mask: u8) -> bool {
    s[5] & mask != 0
}

/// The body of a framed page.
pub open spec fn page_body(s: Seq<u8>) -> Seq<u8> {
    s.subrange(27 + s[26] as int, s.len() as int)
}

/// The number of leading segments that make up the first packet piece of a
/// table: up to and including the first length below 255.
pub open spec fn first_piece_segments(table: Seq<u8>) -> nat
    decreases table.len(),
{
    if table.len() == 0 {
        0
    } else if table[0] < 255 {
        1
    } else {
        1 + first_piece_segments(table.drop_first())
    }
}

/// The packet pieces that a segment table cuts a body into. A piece ends with
/// the first segment shorter than 255 bytes, or with the table.
pub open spec fn pieces(table: Seq<u8>, body: Seq<u8>) -> Seq<Seq<u8>>
    decreases table.len(),
{
    if table.len() == 0 {
        Seq::<Seq<u8>>::empty()
    } else {
        let k = first_piece_segments(table) as int;
        if 0 < k <= table.len() {
            let n = lacing_total(table.take(k)) as int;
            seq![body.take(n)] + pieces(table.skip(k), body.skip(n))
        } else {
            Seq::<Seq<u8>>::empty()
        }
    }
}

/// The packet pieces of a page, in order.
pub open spec fn page_packets(s: Seq<u8>) -> Seq<Seq<u8>> {
    pieces(segment_table(s), page_body(s))
}

/// The sum over a table that is one segment longer.
pub proof fn lemma_lacing_push(table: Seq<u8>, v: u8)
    ensures
        lacing_total(table.push(v)) == lacing_total(table) + v as nat,
{
    assert(table.push(v).drop_last() =~= table);
}

/// The sum over two tables put together.
pub proof fn lemma_lacing_concat(a: Seq<u8>, b: Seq<u8>)
    ensures
        lacing_total(a + b) == lacing_total(a) + lacing_total(b),
    decreases b.len(),
{
    if b.len() == 0 {
        assert(a + b =~= a);
    } else {
        lemma_lacing_concat(a, b.drop_last());
        assert((a + b).drop_last() =~= a + b.drop_last());
    }
}

/// The first piece of a non-empty table has at least one segment and no more
/// than the table.
pub proof fn lemma_first_piece_bounds(table: Seq<u8>)
    ensures
        first_piece_segments(table) <= table.len(),
        table.len() > 0 ==> first_piece_segments(table) >= 1,
    decreases table.len(),
{
    if table.len() > 0 && table[0] == 255 {
        lemma_first_piece_bounds(table.drop_first());
    }
}

/// What measuring looks at: the length, the first five bytes and the segment
/// table. Two strings that agree on those measure alike.
pub proof fn lemma_measure_frame(s: Seq<u8>, t: Seq<u8>)
    requires
        s.len() == t.len(),
        s.len() >= 27 ==> s.subrange(0, 5) == t.subrange(0, 5) && s[26] == t[26],
        s.len() >= 27 + s[26] ==> segment_table(s) == segment_table(t),
    ensures
        measure_spec(s) == measure_spec(t),
{
    if s.len() >= 27 {
        assert(s.subrange(0, 4) =~= s.subrange(0, 5).subrange(0, 4));
        assert(t.subrange(0, 4) =~= t.subrange(0, 5).subrange(0, 4));
        assert(s[4] == s.subrange(0, 5)[4]);
        assert(t[4] == t.subrange(0, 5)[4]);
    }
}

/// A valid page read from the front of a byte slice.
#[derive(Clone, Copy)]
pub struct OggPage<'a> {
    inner: &'a [u8],
}

impl<'a> View for OggPage<'a> {
    type V = Seq<u8>;

    closed spec fn view(&self) -> Seq<u8> {
        self.inner@
    }
}

/// Measures the page at the front of `buf`: header length and body length.
pub fn measure(buf: &[u8]) -> (r: Result<(usize, usize), OggPageCheckError>)
    ensures
        match r {
            Ok((h, b)) => measure_spec(buf@) == Ok::<(nat, nat), OggPageCheckError>(
                (h as nat, b as nat),
            ) && h + b <= buf@.len() && h + b <= usize::MAX && h == 27 + buf@[26],
            Err(e) => measure_spec(buf@) == Err::<(nat, nat), OggPageCheckError>(e),
        },
{
    if buf.len() < 27 {
        return Err(OggPageCheckError::TooShort);
    }
    if buf[0] != 0x4f || buf[1] != 0x67 || buf[2] != 0x67 || buf[3] != 0x53 {
        assert(buf@.subrange(0, 4)[0] == buf@[0]);
        assert(buf@.subrange(0, 4)[1] == buf@[1]);
        assert(buf@.subrange(0, 4)[2] == buf@[2]);
        assert(buf@.subrange(0, 4)[3] == buf@[3]);
        return Err(OggPageCheckError::BadCapture);
    }
    assert(buf@.subrange(0, 4) =~= capture());
    if buf[4] != 0 {
        return Err(OggPageCheckError::BadVersion);
    }
    let n: usize = buf[26] as usize;
    if buf.len() < 27 + n {
        return Err(OggPageCheckError::TooShort);
    }
    let mut body_len: usize = 0;
    let mut i: usize = 0;
    while i < n
        invariant
            i <= n <= 255,
            27 + n <= buf@.len(),
            body_len == lacing_total(buf@.subrange(27, 27 + i as int)),
            body_len <= 255 * i,
        decreases n - i,
    {
        proof {
            lemma_lacing_push(buf@.subrange(27, 27 + i as int), buf@[27 + i as int]);
            assert(buf@.subrange(27, 27 + i as int).push(buf@[27 + i as int]) =~= buf@.subrange(
                27,
                27 + i as int + 1,
            ));
        }
        body_len = body_len + buf[27 + i] as usize;
        i = i + 1;
    }
    if buf.len() - 27 - n < body_len {
        return Err(OggPageCheckError::TooShort);
    }
    Ok((27 + n, body_len))
}

/// The checksum that the page `buf` must carry.
pub fn checksum_helper(buf: &[u8]) -> (crc: u32)
    ensures
        crc == page_crc(buf@),
{
    let ghost zeroed = zero_checksum(buf@);
    let mut crc: u32 = 0;
    let mut i: usize = 0;
    while i < buf.len()
        invariant
            i <= buf@.len(),
            zeroed == zero_checksum(buf@),
            crc == crc_of(zeroed.subrange(0, i as int)),
        decreases buf@.len() - i,
    {
        proof {
            lemma_crc_push(zeroed.subrange(0, i as int), zeroed[i as int]);
            assert(zeroed.subrange(0, i as int).push(zeroed[i as int]) =~= zeroed.subrange(
                0,
                i as int + 1,
            ));
        }
        if CHECKSUM_OFFSET <= i && i < CHECKSUM_OFFSET + 4 {
            crc32(&mut crc, 0);
        } else {
            crc32(&mut crc, buf[i]);
        }
        i = i + 1;
    }
    assert(zeroed.subrange(0, i as int) =~= zeroed);
    crc
}

impl<'a> OggPage<'a> {
    /// The page's bytes are exactly one valid page.
    pub open spec fn wf(&self) -> bool {
        is_page(self@)
    }

    /// Reads the page at the front of `buf`. Bytes behind the page are left
    /// out of it.
    pub fn new(buf: &'a [u8]) -> (r: Result<OggPage<'a>, OggPageCheckError>)
        ensures
            match r {
                Ok(page) => check_spec(buf@) == Ok::<nat, OggPageCheckError>(page@.len())
                    && page@.len() <= buf@.len() && page@ == buf@.subrange(
                    0,
                    page@.len() as int,
                ) && page.wf(),
                Err(e) => check_spec(buf@) == Err::<nat, OggPageCheckError>(e),
            },
            is_page(buf@) ==> r is Ok && r->Ok_0@ == buf@,
    {
        assert(buf@.subrange(0, buf@.len() as int) =~= buf@);
        proof {
            reveal(check_spec);
        }
        let whole = match OggPage::measure_whole(buf) {
            Ok(whole) => whole,
            Err(e) => {
                return Err(e);
            },
        };
        let computed = checksum_helper(whole);
        let in_page = read_u32_le(slice_subrange(whole, CHECKSUM_OFFSET, CHECKSUM_OFFSET + 4));
        proof {
            reveal(check_spec);
            lemma_measure_prefix(buf@);
            assert(whole@.subrange(22, 26) =~= buf@.subrange(22, 26));
            assert(whole@.subrange(0, whole@.len() as int) =~= whole@);
        }
        if computed == in_page {
            Ok(OggPage { inner: whole })
        } else {
            Err(OggPageCheckError::BadCrc)
        }
    }

    /// The bytes of the page at the front of `buf`, checksum not looked at.
    pub fn measure_whole(buf: &'a [u8]) -> (r: Result<&'a [u8], OggPageCheckError>)
        ensures
            match r {
                Ok(whole) => match measure_spec(buf@) {
                    Ok((h, b)) => whole@ == buf@.subrange(0, (h + b) as int) && h + b
                        <= buf@.len() && whole@.len() == h + b,
                    Err(_) => false,
                },
                Err(e) => measure_spec(buf@) == Err::<(nat, nat), OggPageCheckError>(e),
            },
    {
        match measure(buf) {
            Ok((h, b)) => Ok(slice_subrange(buf, 0, h + b)),
            Err(e) => Err(e),
        }
    }

    /// The page's bytes.
    pub fn as_u8_slice(&self) -> (bytes: &'a [u8])
        ensures
            bytes@ == self@,
    {
        self.inner
    }

    /// An owned copy of the page.
    pub fn to_owned(&self) -> (page: OggPageBuf)
        requires
            self.wf(),
        ensures
            page@ == self@,
            page.wf(),
    {
        OggPageBuf { inner: copy_bytes(self.inner) }
    }

    /// The granule position.
    pub fn position(&self) -> (granule: u64)
        requires
            self.wf(),
        ensures
            granule == page_position(self@),
    {
        proof {
            lemma_page_is_framed(self@);
        }
        read_u64_le(slice_subrange(self.inner, POSITION_OFFSET, POSITION_OFFSET + 8))
    }

    /// The bitstream serial.
    pub fn serial(&self) -> (serial: u32)
        requires
            self.wf(),
        ensures
            serial == page_serial(self@),
    {
        proof {
            lemma_page_is_framed(self@);
        }
        read_u32_le(slice_subrange(self.inner, SERIAL_OFFSET, SERIAL_OFFSET + 4))
    }

    /// The page sequence number.
    pub fn sequence(&self) -> (sequence: u32)
        requires
            self.wf(),
        ensures
            sequence == page_sequence(self@),
    {
        proof {
            lemma_page_is_framed(self@);
        }
        read_u32_le(slice_subrange(self.inner, SEQUENCE_OFFSET, SEQUENCE_OFFSET + 4))
    }

    /// Whether the first packet continues one from the page before.
    pub fn continued(&self) -> (flag: bool)
        requires
            self.wf(),
        ensures
            flag == page_flag(self@, FLAG_CONTINUED),
    {
        proof {
            lemma_page_is_framed(self@);
        }
        self.inner[FLAGS_OFFSET] & FLAG_CONTINUED != 0
    }

    /// Whether this is the first page of its bitstream.
    pub fn bos(&self) -> (flag: bool)
        requires
            self.wf(),
        ensures
            flag == page_flag(self@, FLAG_BOS),
    {
        proof {
            lemma_page_is_framed(self@);
        }
        self.inner[FLAGS_OFFSET] & FLAG_BOS != 0
    }

    /// Whether this is the last page of its bitstream.
    pub fn eos(&self) -> (flag: bool)
        requires
            self.wf(),
        ensures
            flag == page_flag(self@, FLAG_EOS),
    {
        proof {
            lemma_page_is_framed(self@);
        }
        self.inner[FLAGS_OFFSET] & FLAG_EOS != 0
    }

    /// The body: the bytes behind the segment table.
    pub fn body(&self) -> (body: &'a [u8])
        requires
            self.wf(),
        ensures
            body@ == page_body(self@),
    {
        proof {
            lemma_page_is_framed(self@);
        }
        let n: usize = self.inner[SEGMENTS_OFFSET] as usize;
        slice_subrange(self.inner, HEADER_LEN + n, self.inner.len())
    }

    /// The segment table.
    pub fn segments(&self) -> (table: &'a [u8])
        requires
            self.wf(),
        ensures
            table@ == segment_table(self@),
    {
        proof {
            lemma_page_is_framed(self@);
        }
        let n: usize = self.inner[SEGMENTS_OFFSET] as usize;
        slice_subrange(self.inner, HEADER_LEN, HEADER_LEN + n)
    }

    /// Whether the last packet piece of the page is left open, to be
    /// continued on the next page.
    pub fn open_ended(&self) -> (open: bool)
        requires
            self.wf(),
        ensures
            open == table_open_ended(segment_table(self@)),
    {
        let table = self.segments();
        table.len() > 0 && table[table.len() - 1] == 255
    }

    /// Opens a copy of the page for editing.
    pub fn begin(&self) -> (tx: ChecksumGuard)
        requires
            self.wf(),
        ensures
            tx@ == self@,
            tx.wf(),
    {
        self.to_owned().begin()
    }

    /// A copy of the page with another granule position and the checksum
    /// that goes with it.
    pub fn set_position(&self, granule: u64) -> (page: OggPageBuf)
        requires
            self.wf(),
        ensures
            page.wf(),
            page@ == with_checksum(with_position(self@, granule)),
    {
        let mut tx = self.begin();
        tx.set_position(granule);
        tx.commit()
    }

    /// A copy of the page with another bitstream serial and the checksum
    /// that goes with it.
    pub fn set_serial(&self, serial: u32) -> (page: OggPageBuf)
        requires
            self.wf(),
        ensures
            page.wf(),
            page@ == with_checksum(with_serial(self@, serial)),
    {
        let mut tx = self.begin();
        tx.set_serial(serial);
        tx.commit()
    }

    /// A copy of the page with another sequence number and the checksum that
    /// goes with it.
    pub fn set_sequence(&self, sequence: u32) -> (page: OggPageBuf)
        requires
            self.wf(),
        ensures
            page.wf(),
            page@ == with_checksum(with_sequence(self@, sequence)),
    {
        let mut tx = self.begin();
        tx.set_sequence(sequence);
        tx.commit()
    }

    /// An iterator over the packet pieces of the page.
    pub fn raw_packets(&self) -> (packets: RawPackets<'a>)
        requires
            self.wf(),
        ensures
            packets.wf(),
            packets.remaining() == page_packets(self@),
    {
        let table = self.segments();
        let body = self.body();
        proof {
            lemma_page_is_framed(self@);
            lemma_lacing_total_of_page(self@);
            assert(table@.skip(0) =~= table@);
            assert(body@.skip(0) =~= body@);
        }
        RawPackets { table, body, segment: 0, body_offset: 0 }
    }
}

/// A table whose last segment is 255 bytes long leaves its last packet open.
pub open spec fn table_open_ended(table: Seq<u8>) -> bool {
    table.len() > 0 && table.last() == 255
}

/// Measuring a string gives the same as measuring the page it starts with.
pub proof fn lemma_measure_prefix(s: Seq<u8>)
    ensures
        match measure_spec(s) {
            Ok((h, b)) => measure_spec(s.subrange(0, (h + b) as int)) == measure_spec(s)
                && is_framed(s.subrange(0, (h + b) as int)),
            Err(_) => true,
        },
{
    match measure_spec(s) {
        Ok((h, b)) => {
            let t = s.subrange(0, (h + b) as int);
            assert(t.subrange(0, 4) =~= s.subrange(0, 4));
            assert(segment_table(t) =~= segment_table(s));
        },
        Err(_) => {},
    }
}

/// A valid page is framed, and carries the checksum that its bytes call for.
pub proof fn lemma_page_is_framed(s: Seq<u8>)
    requires
        is_page(s),
    ensures
        is_framed(s),
        stored_crc(s) == page_crc(s),
{
    reveal(check_spec);
    assert(s.subrange(0, s.len() as int) =~= s);
}

/// In a framed page the body is as long as the segment table says.
pub proof fn lemma_lacing_total_of_page(s: Seq<u8>)
    requires
        is_framed(s),
    ensures
        page_body(s).len() == lacing_total(segment_table(s)),
        segment_table(s).len() == s[26],
{
}

/// The page that a string starts with is a valid page on its own.
pub proof fn lemma_check_prefix(s: Seq<u8>)
    ensures
        match check_spec(s) {
            Ok(n) => 27 <= n <= s.len() && is_page(s.subrange(0, n as int)),
            Err(_) => true,
        },
{
    match check_spec(s) {
        Ok(n) => {
            reveal(check_spec);
            let t = s.subrange(0, n as int);
            lemma_measure_prefix(s);
            assert(t.subrange(22, 26) =~= s.subrange(22, 26));
            assert(t.subrange(0, n as int) =~= t);
        },
        Err(_) => {},
    }
}

/// Bytes behind a valid page do not change how the front is read.
pub proof fn lemma_check_extend(p: Seq<u8>, rest: Seq<u8>)
    requires
        is_page(p),
    ensures
        check_spec(p + rest) == Ok::<nat, OggPageCheckError>(p.len()),
{
    reveal(check_spec);
    let s = p + rest;
    assert(s.subrange(0, 4) =~= p.subrange(0, 4));
    assert(segment_table(s) =~= segment_table(p));
    assert(s.subrange(22, 26) =~= p.subrange(22, 26));
    assert(s.subrange(0, p.len() as int) =~= p);
    assert(p.subrange(0, p.len() as int) =~= p);
}

/// An iterator over the packet pieces of a page.
pub struct RawPackets<'a> {
    table: &'a [u8],
    body: &'a [u8],
    // index of the next segment length in the table
    segment: usize,
    // where the next piece lies in the body
    body_offset: usize,
}

impl<'a> RawPackets<'a> {
    /// The pieces not handed out yet.
    pub closed spec fn remaining(&self) -> Seq<Seq<u8>> {
        pieces(self.table@.skip(self.segment as int), self.body@.skip(self.body_offset as int))
    }

    /// The cursor lies inside the page, and the rest of the body is as long
    /// as the rest of the table says.
    pub closed spec fn wf(&self) -> bool {
        &&& self.segment <= self.table@.len()
        &&& self.body_offset <= self.body@.len()
        &&& self.body@.len() - self.body_offset == lacing_total(
            self.table@.skip(self.segment as int),
        )
    }

    /// The next packet piece, or `None` behind the last.
    pub fn next(&mut self) -> (r: Option<&'a [u8]>)
        requires
            old(self).wf(),
        ensures
            final(self).wf(),
            match r {
                Some(piece) => old(self).remaining().len() > 0 && piece@ == old(self).remaining()[0] && final(self).remaining() == old(self).remaining().drop_first(),
                None => old(self).remaining().len() == 0 && final(self).remaining() == old(self).remaining(),
            },
    {
        let ghost rest = self.table@.skip(self.segment as int);
        let ghost rest_body = self.body@.skip(self.body_offset as int);
        if self.table.len() <= self.segment {
            return None;
        }
        let start = self.segment;
        let offset = self.body_offset;
        let body_len = self.body.len();
        let mut length: usize = 0;
        let mut done = false;
        proof {
            lemma_first_piece_bounds(rest);
            assert(rest.take(0) =~= Seq::<u8>::empty());
            assert(rest.skip(0) =~= rest);
        }
        while !done && self.segment < self.table.len()
            invariant
                start <= self.segment <= self.table@.len(),
                self.table == old(self).table,
                self.body == old(self).body,
                self.body_offset == offset,
                rest == self.table@.skip(start as int),
                length == lacing_total(rest.take(self.segment - start)),
                !done ==> first_piece_segments(rest) == (self.segment - start)
                    + first_piece_segments(rest.skip(self.segment - start)),
                done ==> first_piece_segments(rest) == self.segment - start,
                length + lacing_total(rest.skip(self.segment - start)) == lacing_total(rest),
                lacing_total(rest) == body_len - offset,
                body_len == self.body@.len(),
            decreases self.table@.len() - self.segment + if done { 0int } else { 1int },
        {
            let v = self.table[self.segment];
            proof {
                let k = self.segment - start;
                let tail = rest.skip(k);
                assert(tail[0] == v);
                assert(tail.drop_first() =~= rest.skip(k + 1));
                assert(rest.take(k + 1) =~= rest.take(k).push(v));
                lemma_lacing_push(rest.take(k), v);
                lemma_first_piece_bounds(tail.drop_first());
                lemma_lacing_concat(rest.take(k + 1), rest.skip(k + 1));
                assert(rest.take(k + 1) + rest.skip(k + 1) =~= rest);
            }
            length = length + v as usize;
            self.segment = self.segment + 1;
            if v < 255 {
                done = true;
            }
        }
        proof {
            let k = self.segment - start;
            if !done {
                assert(rest.skip(k).len() == 0);
            }
            assert(first_piece_segments(rest) == k);
            assert(rest.skip(k) =~= self.table@.skip(self.segment as int));
            assert(rest_body.take(length as int) =~= self.body@.subrange(
                offset as int,
                offset + length,
            ));
            assert(rest_body.skip(length as int) =~= self.body@.skip(offset + length));
        }
        self.body_offset = offset + length;
        Some(slice_subrange(self.body, offset, offset + length))
    }
}

/// An owned page.
pub struct OggPageBuf {
    inner: Vec<u8>,
}

impl Clone for OggPageBuf {
    fn clone(&self) -> (copy: Self)
        ensures
            copy@ == self@,
    {
        OggPageBuf { inner: copy_bytes(self.inner.as_slice()) }
    }
}

impl View for OggPageBuf {
    type V = Seq<u8>;

    closed spec fn view(&self) -> Seq<u8> {
        self.inner@
    }
}

impl OggPageBuf {
    /// The page's bytes are exactly one valid page.
    pub open spec fn wf(&self) -> bool {
        is_page(self@)
    }

    /// Takes the page at the front of `buf` and drops what lies behind it.
    pub fn new(buf: Vec<u8>) -> (r: Result<OggPageBuf, OggPageCheckError>)
        ensures
            match r {
                Ok(page) => check_spec(buf@) == Ok::<nat, OggPageCheckError>(page@.len())
                    && page@.len() <= buf@.len() && page@ == buf@.subrange(
                    0,
                    page@.len() as int,
                ) && page.wf(),
                Err(e) => check_spec(buf@) == Err::<nat, OggPageCheckError>(e),
            },
            is_page(buf@) ==> r is Ok && r->Ok_0@ == buf@,
    {
        assert(buf@.subrange(0, buf@.len() as int) =~= buf@);
        let mut buf = buf;
        let len = match OggPage::new(buf.as_slice()) {
            Ok(page) => page.as_u8_slice().len(),
            Err(e) => {
                return Err(e);
            },
        };
        buf.truncate(len);
        Ok(OggPageBuf { inner: buf })
    }

    /// The page, borrowed.
    pub fn as_ref(&self) -> (page: OggPage<'_>)
        requires
            self.wf(),
        ensures
            page@ == self@,
            page.wf(),
    {
        OggPage { inner: self.inner.as_slice() }
    }

    /// The page's bytes.
    pub fn as_u8_slice(&self) -> (bytes: &[u8])
        ensures
            bytes@ == self@,
    {
        self.inner.as_slice()
    }

    /// The page's bytes, owned.
    pub fn into_inner(self) -> (bytes: Vec<u8>)
        ensures
            bytes@ == self@,
    {
        self.inner
    }

    /// Opens the page for editing. The checksum is written once, when the
    /// edit is committed.
    pub fn begin(self) -> (tx: ChecksumGuard)
        requires
            self.wf(),
        ensures
            tx@ == self@,
            tx.wf(),
    {
        proof {
            lemma_page_is_framed(self@);
        }
        ChecksumGuard { bytes: self.inner }
    }
}

/// `s` with `bytes` written over it from offset `at`.
pub open spec fn overwrite(s: Seq<u8>, at: int, bytes: Seq<u8>) -> Seq<u8> {
    s.subrange(0, at) + bytes + s.subrange(at + bytes.len(), s.len() as int)
}

/// The page with another granule position; the checksum is left as it was.
pub open spec fn with_position(s: Seq<u8>, granule: u64) -> Seq<u8> {
    overwrite(s, 6, le_bytes_u64(granule))
}

/// The page with another serial; the checksum is left as it was.
pub open spec fn with_serial(s: Seq<u8>, serial: u32) -> Seq<u8> {
    overwrite(s, 14, le_bytes_u32(serial))
}

/// The page with another sequence number; the checksum is left as it was.
pub open spec fn with_sequence(s: Seq<u8>, sequence: u32) -> Seq<u8> {
    overwrite(s, 18, le_bytes_u32(sequence))
}

/// The flags byte with flag `mask` set or cleared.
pub open spec fn flag_byte(flags: u8, mask: u8, on: bool) -> u8 {
    if on {
        flags | mask
    } else {
        flags & !mask
    }
}

/// The page with flag `mask` set or cleared; the checksum is left as it was.
pub open spec fn with_flag(s: Seq<u8>, mask: u8, on: bool) -> Seq<u8> {
    s.update(5, flag_byte(s[5], mask, on))
}

/// The page with the checksum that its other bytes call for.
pub open spec fn with_checksum(s: Seq<u8>) -> Seq<u8> {
    overwrite(s, 22, le_bytes_u32(page_crc(s)))
}

/// Overwriting header fields between the version byte and the segment count
/// keeps a page framed.
pub proof fn lemma_overwrite_framed(s: Seq<u8>, at: int, bytes: Seq<u8>)
    requires
        is_framed(s),
        5 <= at,
        at + bytes.len() <= 26,
    ensures
        is_framed(overwrite(s, at, bytes)),
        overwrite(s, at, bytes).len() == s.len(),
        forall|i: int|
            0 <= i < s.len() && !(at <= i < at + bytes.len()) ==> overwrite(s, at, bytes)[i]
                == s[i],
        forall|i: int| 0 <= i < bytes.len() ==> overwrite(s, at, bytes)[at + i] == bytes[i],
{
    let t = overwrite(s, at, bytes);
    assert(t.len() == s.len());
    assert(s.subrange(0, 5) =~= t.subrange(0, 5));
    assert(segment_table(s) =~= segment_table(t));
    lemma_measure_frame(s, t);
}

/// What overwriting bytes of the header between the version byte and the
/// checksum leaves alone: the length, the framing, the flags byte and the
/// three numbers of the header, as far as they lie outside the bytes
/// written, the segment table and the body.
pub proof fn lemma_overwrite_fields(s: Seq<u8>, at: int, bytes: Seq<u8>)
    requires
        is_framed(s),
        5 <= at,
        at + bytes.len() <= 22,
    ensures
        is_framed(overwrite(s, at, bytes)),
        overwrite(s, at, bytes).len() == s.len(),
        overwrite(s, at, bytes).subrange(at, at + bytes.len()) == bytes,
        at > 5 ==> overwrite(s, at, bytes)[5] == s[5],
        at + bytes.len() <= 6 || at >= 14 ==> overwrite(s, at, bytes).subrange(6, 14)
            == s.subrange(6, 14),
        at + bytes.len() <= 14 || at >= 18 ==> overwrite(s, at, bytes).subrange(14, 18)
            == s.subrange(14, 18),
        at + bytes.len() <= 18 ==> overwrite(s, at, bytes).subrange(18, 22) == s.subrange(18, 22),
        segment_table(overwrite(s, at, bytes)) == segment_table(s),
        page_body(overwrite(s, at, bytes)) == page_body(s),
{
    let t = overwrite(s, at, bytes);
    lemma_overwrite_framed(s, at, bytes);
    assert(t.subrange(at, at + bytes.len()) =~= bytes);
    if at + bytes.len() <= 6 || at >= 14 {
        assert(t.subrange(6, 14) =~= s.subrange(6, 14));
    }
    if at + bytes.len() <= 14 || at >= 18 {
        assert(t.subrange(14, 18) =~= s.subrange(14, 18));
    }
    if at + bytes.len() <= 18 {
        assert(t.subrange(18, 22) =~= s.subrange(18, 22));
    }
    assert(segment_table(t) =~= segment_table(s));
    assert(page_body(t) =~= page_body(s));
}

/// Renewing the checksum leaves the rest of a framed page alone.
pub proof fn lemma_with_checksum_fields(s: Seq<u8>)
    requires
        is_framed(s),
    ensures
        is_page(with_checksum(s)),
        with_checksum(s).len() == s.len(),
        with_checksum(s)[5] == s[5],
        with_checksum(s).subrange(6, 14) == s.subrange(6, 14),
        with_checksum(s).subrange(14, 18) == s.subrange(14, 18),
        with_checksum(s).subrange(18, 22) == s.subrange(18, 22),
        segment_table(with_checksum(s)) == segment_table(s),
        page_body(with_checksum(s)) == page_body(s),
{
    let bytes = le_bytes_u32(page_crc(s));
    let t = with_checksum(s);
    lemma_decode_encode_u32(0, page_crc(s));
    lemma_with_checksum_is_page(s);
    lemma_overwrite_framed(s, 22, bytes);
    assert(t.subrange(6, 14) =~= s.subrange(6, 14));
    assert(t.subrange(14, 18) =~= s.subrange(14, 18));
    assert(t.subrange(18, 22) =~= s.subrange(18, 22));
    assert(segment_table(t) =~= segment_table(s));
    assert(page_body(t) =~= page_body(s));
}

/// Writing the checksum that a framed page calls for makes it a valid page.
pub proof fn lemma_with_checksum_is_page(s: Seq<u8>)
    requires
        is_framed(s),
    ensures
        is_page(with_checksum(s)),
        page_crc(with_checksum(s)) == page_crc(s),
        stored_crc(with_checksum(s)) == page_crc(s),
{
    reveal(check_spec);
    let bytes = le_bytes_u32(page_crc(s));
    let t = with_checksum(s);
    lemma_decode_encode_u32(0, page_crc(s));
    lemma_overwrite_framed(s, 22, bytes);
    assert(zero_checksum(t) =~= zero_checksum(s));
    assert(t.subrange(22, 26) =~= bytes);
    assert(t.subrange(0, t.len() as int) =~= t);
}

/// A page that is open for editing. Its header fields can be set freely;
/// `commit` writes the checksum and hands the page back.
pub struct ChecksumGuard {
    bytes: Vec<u8>,
}

impl View for ChecksumGuard {
    type V = Seq<u8>;

    closed spec fn view(&self) -> Seq<u8> {
        self.bytes@
    }
}

impl ChecksumGuard {
    /// The bytes are framed as one page; the checksum may be stale.
    pub open spec fn wf(&self) -> bool {
        is_framed(self@)
    }

    /// Takes bytes that are known to be framed as one page.
    pub(crate) fn from_framed(bytes: Vec<u8>) -> (tx: ChecksumGuard)
        requires
            is_framed(bytes@),
        ensures
            tx@ == bytes@,
            tx.wf(),
    {
        ChecksumGuard { bytes }
    }

    /// Sets the granule position.
    pub fn set_position(&mut self, granule: u64)
        requires
            old(self).wf(),
        ensures
            final(self).wf(),
            final(self)@ == with_position(old(self)@, granule),
    {
        proof {
            lemma_decode_encode_u64(granule);
            lemma_overwrite_framed(self@, 6, le_bytes_u64(granule));
        }
        write_u64_le(&mut self.bytes, POSITION_OFFSET, granule);
    }

    /// Sets the bitstream serial.
    pub fn set_serial(&mut self, serial: u32)
        requires
            old(self).wf(),
        ensures
            final(self).wf(),
            final(self)@ == with_serial(old(self)@, serial),
    {
        proof {
            lemma_decode_encode_u32(0, serial);
            lemma_overwrite_framed(self@, 14, le_bytes_u32(serial));
        }
        write_u32_le(&mut self.bytes, SERIAL_OFFSET, serial);
    }

    /// Sets the page sequence number.
    pub fn set_sequence(&mut self, sequence: u32)
        requires
            old(self).wf(),
        ensures
            final(self).wf(),
            final(self)@ == with_sequence(old(self)@, sequence),
    {
        proof {
            lemma_decode_encode_u32(0, sequence);
            lemma_overwrite_framed(self@, 18, le_bytes_u32(sequence));
        }
        write_u32_le(&mut self.bytes, SEQUENCE_OFFSET, sequence);
    }

    fn set_flag(&mut self, mask: u8, on: bool)
        requires
            old(self).wf(),
        ensures
            final(self).wf(),
            final(self)@ == with_flag(old(self)@, mask, on),
    {
        let flags = self.bytes[FLAGS_OFFSET];
        let value = if on {
            flags | mask
        } else {
            flags & !mask
        };
        proof {
            let s = self@;
            lemma_overwrite_framed(s, 5, seq![value]);
            assert(overwrite(s, 5, seq![value]) =~= s.update(5, value));
        }
        self.bytes.set(FLAGS_OFFSET, value);
    }

    /// Sets or clears the continuation flag.
    pub fn set_continued(&mut self, on: bool)
        requires
            old(self).wf(),
        ensures
            final(self).wf(),
            final(self)@ == with_flag(old(self)@, FLAG_CONTINUED, on),
    {
        self.set_flag(FLAG_CONTINUED, on);
    }

    /// Sets or clears the beginning-of-stream flag.
    pub fn set_bos(&mut self, on: bool)
        requires
            old(self).wf(),
        ensures
            final(self).wf(),
            final(self)@ == with_flag(old(self)@, FLAG_BOS, on),
    {
        self.set_flag(FLAG_BOS, on);
    }

    /// Sets or clears the end-of-stream flag.
    pub fn set_eos(&mut self, on: bool)
        requires
            old(self).wf(),
        ensures
            final(self).wf(),
            final(self)@ == with_flag(old(self)@, FLAG_EOS, on),
    {
        self.set_flag(FLAG_EOS, on);
    }

    /// Ends the edit: computes the checksum of the page as it now is, writes
    /// it, and hands the page back.
    pub fn commit(self) -> (page: OggPageBuf)
        requires
            self.wf(),
        ensures
            page.wf(),
            page@ == with_checksum(self@),
            stored_crc(page@) == page_crc(page@),
    {
        let mut bytes = self.bytes;
        let crc = checksum_helper(bytes.as_slice());
        proof {
            lemma_with_checksum_is_page(bytes@);
        }
        write_u32_le(&mut bytes, CHECKSUM_OFFSET, crc);
        OggPageBuf { inner: bytes }
    }
}

/// Looks for the capture pattern in a stream of bytes: remembers the last
/// four.
pub struct Recapture {
    last: [u8; 4],
}

impl Recapture {
    /// The last four bytes pushed, oldest first; zeros stand for bytes not
    /// pushed yet.
    pub closed spec fn window(&self) -> Seq<u8> {
        self.last@
    }

    /// Nothing pushed yet.
    pub fn new() -> (r: Recapture)
        ensures
            r.window() == seq![0u8, 0u8, 0u8, 0u8],
    {
        let r = Recapture { last: [0, 0, 0, 0] };
        assert(r.window() =~= seq![0u8, 0u8, 0u8, 0u8]);
        r
    }

    /// Takes one more byte of the stream.
    pub fn push_byte(&mut self, byte: u8)
        ensures
            final(self).window() == old(self).window().skip(1).push(byte),
    {
        let next = [self.last[1], self.last[2], self.last[3], byte];
        self.last = next;
        assert(self.window() =~= old(self).window().skip(1).push(byte));
    }

    /// Whether the last four bytes pushed are the capture pattern.
    pub fn is_captured(&self) -> (yes: bool)
        ensures
            yes == (self.window() == capture()),
    {
        let yes = self.last[0] == 0x4f && self.last[1] == 0x67 && self.last[2] == 0x67
            && self.last[3] == 0x53;
        proof {
            if yes {
                assert(self.window() =~= capture());
            } else {
                let c = capture();
                assert(c[0] == 0x4f && c[1] == 0x67 && c[2] == 0x67 && c[3] == 0x53);
            }
        }
        yes
    }
}

} // verus!
