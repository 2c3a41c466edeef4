//! Vorbis header packets: identification and comments.
//!
//! A header packet starts with a type byte and the word `vorbis`. The
//! identification header gives the sample rate; the comment header carries
//! the vendor string and a list of `KEY=value` entries.

use vstd::prelude::*;
use vstd::slice::slice_subrange;
use vstd::utf8::*;
use crate::byteio::{append_bytes, copy_bytes, le_bytes_u32, le_u32, read_u32_le, u32_to_le};
use crate::page::page_packets;
use crate::track::TrackPageIter;

verus! {

/// Why a packet is not a well-formed Vorbis header.
#[derive(Debug, Clone, Copy, PartialEq, Eq, Structural)]
pub enum VorbisHeaderCheckError {
    /// Shorter than eight bytes, no `vorbis` behind the type byte, or an
    /// unknown type byte.
    BadCapture,
    /// An identification header with no channels, no sample rate, block
    /// sizes in the wrong order or no framing bit.
    BadIdentificationHeader,
    /// An identification header of fewer than 30 bytes.
    BadIdentificationHeaderLength,
    /// A comment header that ends before its contents do.
    Truncated,
    /// A vendor string or comment that is not UTF-8.
    InvalidUtf8,
    /// A comment header whose framing bit is not set.
    BadFramingBit,
    /// A comment without `=`.
    MalformedComment,
}

/// The kind of a Vorbis packet, by its first byte.
#[derive(Debug, Clone, Copy, PartialEq, Eq, Structural)]
pub enum VorbisHeaderType {
    Audio,
    IdentificationHeader,
    CommentHeader,
    SetupHeader,
}

/// The packet kind that a type byte stands for.
pub open spec fn header_type(n: u8) -> Option<VorbisHeaderType> {
    if n == 0 {
        Some(VorbisHeaderType::Audio)
    } else if n == 1 {
        Some(VorbisHeaderType::IdentificationHeader)
    } else if n == 3 {
        Some(VorbisHeaderType::CommentHeader)
    } else if n == 5 {
        Some(VorbisHeaderType::SetupHeader)
    } else {
        None
    }
}

impl VorbisHeaderType {
    /// The packet kind that a type byte stands for.
    pub fn from_u8(n: u8) -> (r: Option<VorbisHeaderType>)
        ensures
            r == header_type(n),
    {
        match n {
            0 => Some(VorbisHeaderType::Audio),
            1 => Some(VorbisHeaderType::IdentificationHeader),
            3 => Some(VorbisHeaderType::CommentHeader),
            5 => Some(VorbisHeaderType::SetupHeader),
            _ => None,
        }
    }
}

/// What an identification header says about the stream.
#[derive(Debug, Clone, Copy, PartialEq, Eq, Structural)]
pub struct IdentificationHeader {
    pub vorbis_version: u32,
    pub audio_channels: u8,
    pub audio_sample_rate: u32,
    pub bitrate_maximum: u32,
    pub bitrate_nominal: u32,
    pub bitrate_minimum: u32,
    pub blocksize_0: u8,
    pub blocksize_1: u8,
}

/// The vendor string and the comments of a comment header.
#[derive(Debug, PartialEq, Eq)]
pub struct Comments {
    pub vendor: String,
    pub comments: Vec<(String, String)>,
}

/// A copy of a list of string pairs.
pub fn clone_pairs(pairs: &Vec<(String, String)>) -> (copy: Vec<(String, String)>)
    ensures
        copy@ == pairs@,
{
    let mut copy: Vec<(String, String)> = Vec::new();
    let mut i: usize = 0;
    while i < pairs.len()
        invariant
            i <= pairs@.len(),
            copy@ == pairs@.take(i as int),
        decreases pairs@.len() - i,
    {
        copy.push((pairs[i].0.clone(), pairs[i].1.clone()));
        i = i + 1;
        assert(copy@ =~= pairs@.take(i as int));
    }
    assert(pairs@.take(i as int) =~= pairs@);
    copy
}

impl Clone for Comments {
    fn clone(&self) -> (copy: Self)
        ensures
            copy@ == self@,
            copy.vendor == self.vendor,
            copy.comments@ == self.comments@,
    {
        Comments { vendor: self.vendor.clone(), comments: clone_pairs(&self.comments) }
    }
}

/// What a `Comments` value holds, as character strings.
pub struct CommentsModel {
    pub vendor: Seq<char>,
    pub comments: Seq<(Seq<char>, Seq<char>)>,
}

/// The character strings of a list of string pairs.
pub open spec fn pairs_model(pairs: Seq<(String, String)>) -> Seq<(Seq<char>, Seq<char>)> {
    Seq::new(pairs.len(), |i: int| (pairs[i].0@, pairs[i].1@))
}

impl View for Comments {
    type V = CommentsModel;

    open spec fn view(&self) -> CommentsModel {
        CommentsModel { vendor: self.vendor@, comments: pairs_model(self.comments@) }
    }
}

/// The word `vorbis`.
pub open spec fn magic() -> Seq<u8> {
    seq![0x76u8, 0x6fu8, 0x72u8, 0x62u8, 0x69u8, 0x73u8]
}

/// The identification header in `s`, read at fixed offsets, or why there is
/// none. The type byte and the word `vorbis` are not looked at.
pub open spec fn identification_spec(s: Seq<u8>) -> Result<
    IdentificationHeader,
    VorbisHeaderCheckError,
> {
    if s.len() < 30 {
        Err(VorbisHeaderCheckError::BadIdentificationHeaderLength)
    } else if s[11] == 0 || le_u32(s.subrange(12, 16)) == 0 {
        Err(VorbisHeaderCheckError::BadIdentificationHeader)
    } else if (s[28] & 0x0f) > (s[28] >> 4) || s[29] & 1 != 1 {
        Err(VorbisHeaderCheckError::BadIdentificationHeader)
    } else {
        Ok(
            IdentificationHeader {
                vorbis_version: le_u32(s.subrange(7, 11)),
                audio_channels: s[11],
                audio_sample_rate: le_u32(s.subrange(12, 16)),
                bitrate_maximum: le_u32(s.subrange(16, 20)),
                bitrate_nominal: le_u32(s.subrange(20, 24)),
                bitrate_minimum: le_u32(s.subrange(24, 28)),
                blocksize_0: s[28] & 0x0f,
                blocksize_1: s[28] >> 4,
            },
        )
    }
}

/// The 32-bit little-endian number at `at`, and the offset behind it.
pub open spec fn number_spec(s: Seq<u8>, at: int) -> Option<(u32, int)> {
    if 0 <= at && at + 4 <= s.len() {
        Some((le_u32(s.subrange(at, at + 4)), at + 4))
    } else {
        None
    }
}

/// The length-prefixed byte string at `at`, and the offset behind it.
pub open spec fn blob_spec(s: Seq<u8>, at: int) -> Option<(Seq<u8>, int)> {
    match number_spec(s, at) {
        None => None,
        Some((n, from)) => if from + n <= s.len() {
            Some((s.subrange(from, from + n), from + n))
        } else {
            None
        },
    }
}

/// The index of the first `=` in `e`, or the length of `e` if it has none.
pub open spec fn first_equals(e: Seq<u8>) -> int
    decreases e.len(),
{
    if e.len() == 0 {
        0
    } else if e[0] == 0x3d {
        0
    } else {
        1 + first_equals(e.drop_first())
    }
}

/// Key and value of one comment: the text before and behind its first `=`.
pub open spec fn entry_spec(e: Seq<u8>) -> Result<(Seq<char>, Seq<char>), VorbisHeaderCheckError> {
    if !valid_utf8(e) {
        Err(VorbisHeaderCheckError::InvalidUtf8)
    } else if first_equals(e) >= e.len() {
        Err(VorbisHeaderCheckError::MalformedComment)
    } else {
        Ok(
            (
                decode_utf8(e.subrange(0, first_equals(e))),
                decode_utf8(e.subrange(first_equals(e) + 1, e.len() as int)),
            ),
        )
    }
}

/// The first `count` comments read one behind the other from offset `start`,
/// and the offset behind the last.
#[verifier::opaque]
pub open spec fn entries_spec(s: Seq<u8>, start: int, count: nat) -> Result<
    (Seq<(Seq<char>, Seq<char>)>, int),
    VorbisHeaderCheckError,
>
    decreases count,
{
    if count == 0 {
        Ok((Seq::<(Seq<char>, Seq<char>)>::empty(), start))
    } else {
        match entries_spec(s, start, (count - 1) as nat) {
            Err(e) => Err(e),
            Ok((list, at)) => match blob_spec(s, at) {
                None => Err(VorbisHeaderCheckError::Truncated),
                Some((entry, next)) => match entry_spec(entry) {
                    Err(e) => Err(e),
                    Ok(pair) => Ok((list.push(pair), next)),
                },
            },
        }
    }
}

/// The comments in the comment header `s`, or the first reason why it is
/// not well formed. The type byte and the word `vorbis` are not looked at.
pub open spec fn comments_spec(s: Seq<u8>) -> Result<CommentsModel, VorbisHeaderCheckError> {
    match blob_spec(s, 7) {
        None => Err(VorbisHeaderCheckError::Truncated),
        Some((vendor, at)) => if !valid_utf8(vendor) {
            Err(VorbisHeaderCheckError::InvalidUtf8)
        } else {
            match number_spec(s, at) {
                None => Err(VorbisHeaderCheckError::Truncated),
                Some((count, from)) => match entries_spec(s, from, count as nat) {
                    Err(e) => Err(e),
                    Ok((list, end)) => if end >= s.len() {
                        Err(VorbisHeaderCheckError::Truncated)
                    } else if s[end] & 1 != 1 {
                        Err(VorbisHeaderCheckError::BadFramingBit)
                    } else {
                        Ok(CommentsModel { vendor: decode_utf8(vendor), comments: list })
                    },
                },
            }
        },
    }
}

/// Whether `s` is a well-formed Vorbis header packet, and if not, why.
pub open spec fn header_check(s: Seq<u8>) -> Result<(), VorbisHeaderCheckError> {
    if s.len() < 8 || s.subrange(1, 7) != magic() {
        Err(VorbisHeaderCheckError::BadCapture)
    } else {
        match header_type(s[0]) {
            None => Err(VorbisHeaderCheckError::BadCapture),
            Some(VorbisHeaderType::IdentificationHeader) => match identification_spec(s) {
                Ok(_) => Ok(()),
                Err(e) => Err(e),
            },
            Some(VorbisHeaderType::CommentHeader) => match comments_spec(s) {
                Ok(_) => Ok(()),
                Err(e) => Err(e),
            },
            Some(_) => Ok(()),
        }
    }
}

/// `s` is a well-formed identification header packet.
pub open spec fn is_identification(s: Seq<u8>) -> bool {
    header_check(s) is Ok && s[0] == 1
}

/// `s` is a well-formed comment header packet.
pub open spec fn is_comments(s: Seq<u8>) -> bool {
    header_check(s) is Ok && s[0] == 3
}

/// An error among the first comments is the error of the whole list.
pub proof fn lemma_entries_error(s: Seq<u8>, start: int, k: nat, count: nat)
    requires
        k <= count,
        entries_spec(s, start, k) is Err,
    ensures
        entries_spec(s, start, count) == entries_spec(s, start, k),
    decreases count,
{
    reveal(entries_spec);
    if k < count {
        lemma_entries_error(s, start, k, (count - 1) as nat);
    }
}

/// Where the first `=` is: behind bytes that are none.
pub proof fn lemma_first_equals(e: Seq<u8>, i: int)
    requires
        0 <= i <= e.len(),
        forall|j: int| 0 <= j < i ==> e[j] != 0x3d,
        i < e.len() ==> e[i] == 0x3d,
    ensures
        first_equals(e) == i,
    decreases e.len(),
{
    if i > 0 {
        let rest = e.drop_first();
        assert forall|j: int| 0 <= j < i - 1 implies rest[j] != 0x3d by {
            assert(rest[j] == e[j + 1]);
        }
        lemma_first_equals(rest, i - 1);
    }
}

/// Both sides of an `=` in valid UTF-8 are valid UTF-8.
pub proof fn lemma_split_at_equals(e: Seq<u8>, i: int)
    requires
        valid_utf8(e),
        0 <= i < e.len(),
        e[i] == 0x3d,
    ensures
        valid_utf8(e.subrange(0, i)),
        valid_utf8(e.subrange(i + 1, e.len() as int)),
{
    is_char_boundary_iff_not_is_continuation_byte(e, i);
    valid_utf8_split(e, i);
    let rest = e.subrange(i, e.len() as int);
    assert(rest[0] == 0x3d);
    assert(pop_first_scalar(rest) =~= e.subrange(i + 1, e.len() as int));
}

/// `String::from_utf8`: the text that `bytes` encode, or `None` if they are
/// not UTF-8.
#[verifier::external_body]
pub(crate) fn string_from_utf8(bytes: Vec<u8>) -> (r: Option<String>)
    ensures
        match r {
            Some(text) => valid_utf8(bytes@) && text@ == decode_utf8(bytes@),
            None => !valid_utf8(bytes@),
        },
{
    match String::from_utf8(bytes) {
        Ok(text) => Some(text),
        Err(_) => None,
    }
}

/// The 32-bit little-endian number at `at`, and the offset behind it.
fn read_number(buf: &[u8], at: usize) -> (r: Option<(u32, usize)>)
    ensures
        match r {
            Some((n, next)) => number_spec(buf@, at as int) == Some((n, next as int)) && next
                <= buf@.len(),
            None => number_spec(buf@, at as int) is None,
        },
{
    if buf.len() < 4 || at > buf.len() - 4 {
        None
    } else {
        Some((read_u32_le(slice_subrange(buf, at, at + 4)), at + 4))
    }
}

/// The length-prefixed byte string at `at`, and the offset behind it.
fn read_blob<'a>(buf: &'a [u8], at: usize) -> (r: Option<(&'a [u8], usize)>)
    ensures
        match r {
            Some((blob, next)) => blob_spec(buf@, at as int) == Some((blob@, next as int)) && next
                <= buf@.len(),
            None => blob_spec(buf@, at as int) is None,
        },
{
    match read_number(buf, at) {
        None => None,
        Some((n, from)) => {
            if buf.len() - from < n as usize {
                None
            } else {
                Some((slice_subrange(buf, from, from + n as usize), from + n as usize))
            }
        },
    }
}

/// Splits a comment at its first `=` into key and value.
pub fn split_comment(entry: &[u8]) -> (r: Result<(&[u8], &[u8]), VorbisHeaderCheckError>)
    ensures
        match r {
            Ok((key, value)) => 0 <= first_equals(entry@) < entry@.len() && entry@[first_equals(
                entry@,
            )] == 0x3d && key@ == entry@.subrange(0, first_equals(entry@)) && value@
                == entry@.subrange(first_equals(entry@) + 1, entry@.len() as int),
            Err(e) => e == VorbisHeaderCheckError::MalformedComment && first_equals(entry@)
                >= entry@.len(),
        },
{
    let mut i: usize = 0;
    while i < entry.len() && entry[i] != 0x3d
        invariant
            i <= entry@.len(),
            forall|j: int| 0 <= j < i ==> entry@[j] != 0x3d,
        decreases entry@.len() - i,
    {
        i = i + 1;
    }
    proof {
        lemma_first_equals(entry@, i as int);
    }
    if i < entry.len() {
        Ok((slice_subrange(entry, 0, i), slice_subrange(entry, i + 1, entry.len())))
    } else {
        Err(VorbisHeaderCheckError::MalformedComment)
    }
}

/// Reads one comment: checks that it is UTF-8 and splits it.
fn parse_entry(entry: &[u8]) -> (r: Result<(String, String), VorbisHeaderCheckError>)
    ensures
        match r {
            Ok(pair) => entry_spec(entry@) == Ok::<
                (Seq<char>, Seq<char>),
                VorbisHeaderCheckError,
            >((pair.0@, pair.1@)),
            Err(e) => entry_spec(entry@) == Err::<(Seq<char>, Seq<char>), VorbisHeaderCheckError>(
                e,
            ),
        },
{
    if string_from_utf8(copy_bytes(entry)).is_none() {
        return Err(VorbisHeaderCheckError::InvalidUtf8);
    }
    let (key, value) = match split_comment(entry) {
        Ok(halves) => halves,
        Err(e) => {
            return Err(e);
        },
    };
    proof {
        lemma_split_at_equals(entry@, first_equals(entry@));
    }
    match (string_from_utf8(copy_bytes(key)), string_from_utf8(copy_bytes(value))) {
        (Some(key), Some(value)) => Ok((key, value)),
        _ => Err(VorbisHeaderCheckError::InvalidUtf8),
    }
}

/// Reads the identification header in `buf` at its fixed offsets.
pub fn parse_identification_header(buf: &[u8]) -> (r: Result<
    IdentificationHeader,
    VorbisHeaderCheckError,
>)
    ensures
        r == identification_spec(buf@),
{
    if buf.len() < 30 {
        return Err(VorbisHeaderCheckError::BadIdentificationHeaderLength);
    }
    let vorbis_version = read_u32_le(slice_subrange(buf, 7, 11));
    let audio_channels = buf[11];
    let audio_sample_rate = read_u32_le(slice_subrange(buf, 12, 16));
    if audio_channels == 0 || audio_sample_rate == 0 {
        return Err(VorbisHeaderCheckError::BadIdentificationHeader);
    }
    let bitrate_maximum = read_u32_le(slice_subrange(buf, 16, 20));
    let bitrate_nominal = read_u32_le(slice_subrange(buf, 20, 24));
    let bitrate_minimum = read_u32_le(slice_subrange(buf, 24, 28));
    let blocksize_byte = buf[28];
    let blocksize_0 = blocksize_byte & 0x0f;
    let blocksize_1 = blocksize_byte >> 4;
    if blocksize_0 > blocksize_1 || buf[29] & 1 != 1 {
        return Err(VorbisHeaderCheckError::BadIdentificationHeader);
    }
    Ok(
        IdentificationHeader {
            vorbis_version,
            audio_channels,
            audio_sample_rate,
            bitrate_maximum,
            bitrate_nominal,
            bitrate_minimum,
            blocksize_0,
            blocksize_1,
        },
    )
}

/// Reads `count` comments one behind the other from offset `start`.
fn parse_entries(buf: &[u8], start: usize, count: u32) -> (r: Result<
    (Vec<(String, String)>, usize),
    VorbisHeaderCheckError,
>)
    requires
        start <= buf@.len(),
    ensures
        match r {
            Ok((comments, end)) => entries_spec(buf@, start as int, count as nat) == Ok::<
                (Seq<(Seq<char>, Seq<char>)>, int),
                VorbisHeaderCheckError,
            >((pairs_model(comments@), end as int)) && end <= buf@.len(),
            Err(e) => entries_spec(buf@, start as int, count as nat) == Err::<
                (Seq<(Seq<char>, Seq<char>)>, int),
                VorbisHeaderCheckError,
            >(e),
        },
{
    let mut comments: Vec<(String, String)> = Vec::new();
    let mut at: usize = start;
    let mut i: u32 = 0;
    proof {
        reveal(entries_spec);
    }
    assert(pairs_model(comments@) =~= Seq::<(Seq<char>, Seq<char>)>::empty());
    while i < count
        invariant
            i <= count,
            at <= buf@.len(),
            entries_spec(buf@, start as int, i as nat) == Ok::<
                (Seq<(Seq<char>, Seq<char>)>, int),
                VorbisHeaderCheckError,
            >((pairs_model(comments@), at as int)),
        decreases count - i,
    {
        proof {
            reveal(entries_spec);
        }
        let (entry, next) = match read_blob(buf, at) {
            Some(found) => found,
            None => {
                proof {
                    assert(entries_spec(buf@, start as int, (i + 1) as nat) is Err);
                    lemma_entries_error(buf@, start as int, (i + 1) as nat, count as nat);
                }
                return Err(VorbisHeaderCheckError::Truncated);
            },
        };
        let pair = match parse_entry(entry) {
            Ok(pair) => pair,
            Err(e) => {
                proof {
                    assert(entries_spec(buf@, start as int, (i + 1) as nat) is Err);
                    lemma_entries_error(buf@, start as int, (i + 1) as nat, count as nat);
                }
                return Err(e);
            },
        };
        proof {
            assert(pairs_model(comments@.push(pair)) =~= pairs_model(comments@).push(
                (pair.0@, pair.1@),
            ));
        }
        comments.push(pair);
        at = next;
        i = i + 1;
    }
    Ok((comments, at))
}

/// Reads the comment header in `buf`: vendor, comments and framing bit.
pub fn parse_comment_header(buf: &[u8]) -> (r: Result<Comments, VorbisHeaderCheckError>)
    ensures
        match r {
            Ok(comments) => comments_spec(buf@) == Ok::<CommentsModel, VorbisHeaderCheckError>(
                comments@,
            ),
            Err(e) => comments_spec(buf@) == Err::<CommentsModel, VorbisHeaderCheckError>(e),
        },
{
    let (vendor_buf, at) = match read_blob(buf, 7) {
        Some(found) => found,
        None => {
            return Err(VorbisHeaderCheckError::Truncated);
        },
    };
    let vendor = match string_from_utf8(copy_bytes(vendor_buf)) {
        Some(vendor) => vendor,
        None => {
            return Err(VorbisHeaderCheckError::InvalidUtf8);
        },
    };
    let (count, start) = match read_number(buf, at) {
        Some(found) => found,
        None => {
            return Err(VorbisHeaderCheckError::Truncated);
        },
    };
    let (comments, at) = match parse_entries(buf, start, count) {
        Ok(found) => found,
        Err(e) => {
            return Err(e);
        },
    };
    if at >= buf.len() {
        return Err(VorbisHeaderCheckError::Truncated);
    }
    if buf[at] & 1 != 1 {
        return Err(VorbisHeaderCheckError::BadFramingBit);
    }
    Ok(Comments { vendor, comments })
}

/// A well-formed Vorbis header packet, borrowed.
#[derive(Clone, Copy)]
pub struct VorbisHeader<'a> {
    inner: &'a [u8],
}

impl<'a> View for VorbisHeader<'a> {
    type V = Seq<u8>;

    closed spec fn view(&self) -> Seq<u8> {
        self.inner@
    }
}

impl<'a> VorbisHeader<'a> {
    /// The bytes are a well-formed header packet.
    pub open spec fn wf(&self) -> bool {
        header_check(self@) is Ok
    }

    /// Takes `buf` as a header packet if it is a well-formed one.
    pub fn new(buf: &'a [u8]) -> (r: Result<VorbisHeader<'a>, VorbisHeaderCheckError>)
        ensures
            match r {
                Ok(header) => header@ == buf@ && header.wf(),
                Err(e) => header_check(buf@) == Err::<(), VorbisHeaderCheckError>(e),
            },
    {
        match VorbisHeader::check(buf) {
            Ok(()) => Ok(VorbisHeader { inner: buf }),
            Err(e) => Err(e),
        }
    }

    /// The packet's bytes.
    pub fn as_u8_slice(&self) -> (bytes: &'a [u8])
        ensures
            bytes@ == self@,
    {
        self.inner
    }

    /// An owned copy of the packet.
    pub fn to_owned(&self) -> (header: VorbisHeaderBuf)
        requires
            self.wf(),
        ensures
            header@ == self@,
            header.wf(),
    {
        VorbisHeaderBuf { inner: copy_bytes(self.inner) }
    }

    /// Checks that `buf` is a well-formed header packet: type byte, the word
    /// `vorbis`, and for identification and comment headers their contents.
    pub fn check(buf: &[u8]) -> (r: Result<(), VorbisHeaderCheckError>)
        ensures
            r == header_check(buf@),
    {
        if buf.len() < 8 || buf[1] != 0x76 || buf[2] != 0x6f || buf[3] != 0x72 || buf[4] != 0x62
            || buf[5] != 0x69 || buf[6] != 0x73 {
            proof {
                if buf@.len() >= 8 {
                    let word = buf@.subrange(1, 7);
                    assert(word[0] == buf@[1] && word[1] == buf@[2] && word[2] == buf@[3]);
                    assert(word[3] == buf@[4] && word[4] == buf@[5] && word[5] == buf@[6]);
                }
            }
            return Err(VorbisHeaderCheckError::BadCapture);
        }
        assert(buf@.subrange(1, 7) =~= magic());
        match VorbisHeaderType::from_u8(buf[0]) {
            None => Err(VorbisHeaderCheckError::BadCapture),
            Some(VorbisHeaderType::IdentificationHeader) => {
                match parse_identification_header(buf) {
                    Ok(_) => Ok(()),
                    Err(e) => Err(e),
                }
            },
            Some(VorbisHeaderType::CommentHeader) => {
                match parse_comment_header(buf) {
                    Ok(_) => Ok(()),
                    Err(e) => Err(e),
                }
            },
            Some(_) => Ok(()),
        }
    }

    /// The identification header, if this packet is one.
    pub fn identification_header(&self) -> (r: Option<IdentificationHeader>)
        requires
            self.wf(),
        ensures
            match r {
                Some(id) => self@[0] == 1 && identification_spec(self@) == Ok::<
                    IdentificationHeader,
                    VorbisHeaderCheckError,
                >(id),
                None => self@[0] != 1,
            },
    {
        if self.inner[0] != 1 {
            return None;
        }
        match parse_identification_header(self.inner) {
            Ok(id) => Some(id),
            Err(_) => None,
        }
    }

    /// The comments, if this packet is a comment header.
    pub fn comments(&self) -> (r: Option<Comments>)
        requires
            self.wf(),
        ensures
            match r {
                Some(comments) => self@[0] == 3 && comments_spec(self@) == Ok::<
                    CommentsModel,
                    VorbisHeaderCheckError,
                >(comments@),
                None => self@[0] != 3,
            },
    {
        if self.inner[0] != 3 {
            return None;
        }
        match parse_comment_header(self.inner) {
            Ok(comments) => Some(comments),
            Err(_) => None,
        }
    }

    /// The first identification header among the packet pieces of the pages
    /// that `iter` still holds, in stream order.
    pub fn find_identification(iter: TrackPageIter<'a>) -> (r: Result<VorbisHeader<'a>, ()>)
        requires
            iter.wf(),
        ensures
            match r {
                Ok(header) => find_in_pages(iter.remaining(), 1) == Some(header@) && header.wf()
                    && header@[0] == 1,
                Err(_) => find_in_pages(iter.remaining(), 1) is None,
            },
    {
        find_header(iter, 1)
    }

    /// The first comment header among the packet pieces of the pages that
    /// `iter` still holds, in stream order.
    pub fn find_comments(iter: TrackPageIter<'a>) -> (r: Result<VorbisHeader<'a>, ()>)
        requires
            iter.wf(),
        ensures
            match r {
                Ok(header) => find_in_pages(iter.remaining(), 3) == Some(header@) && header.wf()
                    && header@[0] == 3,
                Err(_) => find_in_pages(iter.remaining(), 3) is None,
            },
    {
        find_header(iter, 3)
    }
}

/// `s` is a well-formed header packet with type byte `kind`.
pub open spec fn is_header_of(s: Seq<u8>, kind: u8) -> bool {
    header_check(s) is Ok && s[0] == kind
}

/// The first of `packets` that is a well-formed header of type `kind`.
pub open spec fn find_in_packets(packets: Seq<Seq<u8>>, kind: u8) -> Option<Seq<u8>>
    decreases packets.len(),
{
    if packets.len() == 0 {
        None
    } else if is_header_of(packets[0], kind) {
        Some(packets[0])
    } else {
        find_in_packets(packets.drop_first(), kind)
    }
}

/// The first packet piece of `pages`, in stream order, that is a well-formed
/// header of type `kind`.
pub open spec fn find_in_pages(pages: Seq<Seq<u8>>, kind: u8) -> Option<Seq<u8>>
    decreases pages.len(),
{
    if pages.len() == 0 {
        None
    } else {
        match find_in_packets(page_packets(pages[0]), kind) {
            Some(packet) => Some(packet),
            None => find_in_pages(pages.drop_first(), kind),
        }
    }
}

/// Walks pages and packet pieces in stream order up to the first
/// well-formed header of type `kind`.
fn find_header<'a>(iter: TrackPageIter<'a>, kind: u8) -> (r: Result<VorbisHeader<'a>, ()>)
    requires
        iter.wf(),
    ensures
        match r {
            Ok(header) => find_in_pages(iter.remaining(), kind) == Some(header@) && header.wf()
                && header@[0] == kind,
            Err(_) => find_in_pages(iter.remaining(), kind) is None,
        },
{
    let mut cursor = iter;
    let ghost all = iter.remaining();
    loop
        invariant
            cursor.wf(),
            all == iter.remaining(),
            find_in_pages(all, kind) == find_in_pages(cursor.remaining(), kind),
        decreases cursor.remaining().len(),
    {
        let ghost pages_before = cursor.remaining();
        let page = match cursor.next() {
            Some(page) => page,
            None => {
                return Err(());
            },
        };
        let mut packets = page.raw_packets();
        loop
            invariant
                packets.wf(),
                all == iter.remaining(),
                pages_before.len() > 0,
                pages_before[0] == page@,
                find_in_pages(all, kind) == find_in_pages(pages_before, kind),
                find_in_packets(page_packets(page@), kind) == find_in_packets(
                    packets.remaining(),
                    kind,
                ),
            ensures
                find_in_packets(page_packets(page@), kind) is None,
            decreases packets.remaining().len(),
        {
            let packet = match packets.next() {
                Some(packet) => packet,
                None => {
                    break ;
                },
            };
            if let Ok(header) = VorbisHeader::new(packet) {
                if header.as_u8_slice()[0] == kind {
                    return Ok(header);
                }
            }
        }
    }
}

/// A well-formed Vorbis header packet, owned.
pub struct VorbisHeaderBuf {
    inner: Vec<u8>,
}

impl Clone for VorbisHeaderBuf {
    fn clone(&self) -> (copy: Self)
        ensures
            copy@ == self@,
    {
        VorbisHeaderBuf { inner: copy_bytes(self.inner.as_slice()) }
    }
}

impl View for VorbisHeaderBuf {
    type V = Seq<u8>;

    closed spec fn view(&self) -> Seq<u8> {
        self.inner@
    }
}

impl VorbisHeaderBuf {
    /// The bytes are a well-formed header packet.
    pub open spec fn wf(&self) -> bool {
        header_check(self@) is Ok
    }

    /// Takes `buf` as a header packet if it is a well-formed one.
    pub fn new(buf: Vec<u8>) -> (r: Result<VorbisHeaderBuf, VorbisHeaderCheckError>)
        ensures
            match r {
                Ok(header) => header@ == buf@ && header.wf(),
                Err(e) => header_check(buf@) == Err::<(), VorbisHeaderCheckError>(e),
            },
    {
        match VorbisHeader::check(buf.as_slice()) {
            Ok(()) => Ok(VorbisHeaderBuf { inner: buf }),
            Err(e) => Err(e),
        }
    }

    /// The packet, borrowed.
    pub fn as_ref(&self) -> (header: VorbisHeader<'_>)
        requires
            self.wf(),
        ensures
            header@ == self@,
            header.wf(),
    {
        VorbisHeader { inner: self.inner.as_slice() }
    }

    /// The packet's bytes.
    pub fn as_u8_slice(&self) -> (bytes: &[u8])
        ensures
            bytes@ == self@,
    {
        self.inner.as_slice()
    }

    /// The packet's bytes, owned.
    pub fn into_inner(self) -> (bytes: Vec<u8>)
        ensures
            bytes@ == self@,
    {
        self.inner
    }
}

} // verus!

verus! {

/// The bytes of one comment: key, `=`, value.
pub open spec fn entry_bytes(pair: (Seq<char>, Seq<char>)) -> Seq<u8> {
    encode_utf8(pair.0) + seq![0x3du8] + encode_utf8(pair.1)
}

/// A byte string behind its length as a 32-bit little-endian number.
pub open spec fn blob_bytes(b: Seq<u8>) -> Seq<u8> {
    le_bytes_u32(b.len() as u32) + b
}

/// The comments of a list, each behind its length, one behind the other.
pub open spec fn entries_bytes(list: Seq<(Seq<char>, Seq<char>)>) -> Seq<u8>
    decreases list.len(),
{
    if list.len() == 0 {
        Seq::<u8>::empty()
    } else {
        entries_bytes(list.drop_last()) + blob_bytes(entry_bytes(list.last()))
    }
}

/// The comment header packet that carries `m`: type byte 3, the word
/// `vorbis`, the vendor, the number of comments, the comments, and the
/// framing byte 1.
pub open spec fn comment_packet(m: CommentsModel) -> Seq<u8> {
    seq![3u8] + magic() + blob_bytes(encode_utf8(m.vendor)) + le_bytes_u32(m.comments.len() as u32)
        + entries_bytes(m.comments) + seq![1u8]
}

/// Every length in `m` fits the 32 bits that the packet has for it.
pub open spec fn fits_packet(m: CommentsModel) -> bool {
    &&& encode_utf8(m.vendor).len() <= u32::MAX
    &&& m.comments.len() <= u32::MAX
    &&& forall|i: int| 0 <= i < m.comments.len() ==> (#[trigger] entry_bytes(m.comments[i])).len()
        <= u32::MAX
}

/// Appends `parts`, a `=` if `sep` is set, and `tail`, behind their length
/// taken together, if that length fits 32 bits.
fn push_blob(out: &mut Vec<u8>, parts: &[u8], sep: bool, tail: &[u8]) -> (ok: bool)
    ensures
        ok <==> parts@.len() + (if sep { 1int } else { 0int }) + tail@.len() <= u32::MAX,
        ok ==> final(out)@ == old(out)@ + blob_bytes(
            parts@ + (if sep { seq![0x3du8] } else { Seq::<u8>::empty() }) + tail@,
        ),
        !ok ==> final(out)@ == old(out)@,
{
    let extra: usize = if sep { 1 } else { 0 };
    if parts.len() > 0xFFFF_FFFF - extra || tail.len() > 0xFFFF_FFFF - extra - parts.len() {
        return false;
    }
    let total = parts.len() + extra + tail.len();
    let ghost before = out@;
    let len_bytes = u32_to_le(total as u32);
    append_bytes(out, len_bytes.as_slice());
    append_bytes(out, parts);
    if sep {
        out.push(0x3d);
    }
    append_bytes(out, tail);
    proof {
        let middle = if sep { seq![0x3du8] } else { Seq::<u8>::empty() };
        assert(out@ =~= before + blob_bytes(parts@ + middle + tail@));
    }
    true
}

impl Comments {
    /// Builds the comment header packet that carries these comments, or
    /// `None` if the vendor, a comment or the list is too long for the 32
    /// bits that the packet has for each length.
    pub fn build_comment_packet(&self) -> (r: Option<Vec<u8>>)
        ensures
            r is Some <==> fits_packet(self@),
            r is Some ==> r->Some_0@ == comment_packet(self@),
    {
        let mut out: Vec<u8> = Vec::new();
        out.push(3);
        out.push(0x76);
        out.push(0x6f);
        out.push(0x72);
        out.push(0x62);
        out.push(0x69);
        out.push(0x73);
        assert(out@ =~= seq![3u8] + magic());
        let empty: Vec<u8> = Vec::new();
        let vendor = self.vendor.as_str().as_bytes();
        if !push_blob(&mut out, vendor, false, empty.as_slice()) {
            assert(vendor@ + Seq::<u8>::empty() + empty@ =~= vendor@);
            return None;
        }
        assert(vendor@ + Seq::<u8>::empty() + empty@ =~= vendor@);
        if self.comments.len() > 0xFFFF_FFFF {
            return None;
        }
        let count_bytes = u32_to_le(self.comments.len() as u32);
        append_bytes(&mut out, count_bytes.as_slice());
        let ghost list = self@.comments;
        let ghost head = out@;
        let mut i: usize = 0;
        while i < self.comments.len()
            invariant
                i <= self.comments@.len(),
                list == pairs_model(self.comments@),
                out@ == head + entries_bytes(list.take(i as int)),
                forall|j: int| 0 <= j < i ==> (#[trigger] entry_bytes(list[j])).len() <= u32::MAX,
            decreases self.comments@.len() - i,
        {
            let key = self.comments[i].0.as_str().as_bytes();
            let value = self.comments[i].1.as_str().as_bytes();
            proof {
                assert(list.take(i + 1).drop_last() =~= list.take(i as int));
                assert(list.take(i + 1).last() == list[i as int]);
                assert(entry_bytes(list[i as int]) =~= key@ + seq![0x3du8] + value@);
            }
            if !push_blob(&mut out, key, true, value) {
                return None;
            }
            i = i + 1;
        }
        assert(list.take(i as int) =~= list);
        out.push(1);
        assert(out@ =~= comment_packet(self@));
        Some(out)
    }
}

} // verus!

verus! {

/// No byte of the string is a `=`.
pub open spec fn no_equals(bytes: Seq<u8>) -> bool {
    forall|i: int| 0 <= i < bytes.len() ==> #[trigger] bytes[i] != 0x3d
}

/// No key of the comments holds a `=`.
pub open spec fn keys_without_equals(list: Seq<(Seq<char>, Seq<char>)>) -> bool {
    forall|i: int| 0 <= i < list.len() ==> no_equals(encode_utf8((#[trigger] list[i]).0))
}

/// Byte strings laid end to end can be grouped from the right.
proof fn lemma_group_three(p: Seq<u8>, c: Seq<u8>, d: Seq<u8>, e: Seq<u8>)
    ensures
        p + c + d + e == p + (c + d + e),
        p + c + d + e == p + c + (d + e),
{
    assert(p + c + d + e =~= p + (c + d + e));
    assert(p + c + d + e =~= p + c + (d + e));
}

/// A part in the middle of byte strings laid end to end.
proof fn lemma_group_middle(h: Seq<u8>, x: Seq<u8>, y: Seq<u8>, z: Seq<u8>, t: Seq<u8>)
    ensures
        h + (x + y + z) + t == h + x + y + (z + t),
{
    assert(h + (x + y + z) + t =~= h + x + y + (z + t));
}

/// The bytes of a list of comments are those before one of them, those of
/// that one, and those behind it.
proof fn lemma_entries_bytes_at(list: Seq<(Seq<char>, Seq<char>)>, k: int)
    requires
        0 <= k < list.len(),
    ensures
        entries_bytes(list) == entries_bytes(list.take(k)) + blob_bytes(entry_bytes(list[k]))
            + entries_bytes(list.skip(k + 1)),
        entries_bytes(list.take(k + 1)) == entries_bytes(list.take(k)) + blob_bytes(
            entry_bytes(list[k]),
        ),
{
    let done = list.take(k);
    let pair = list[k];
    let rest = list.skip(k + 1);
    let one = seq![pair];
    assert(one.drop_last() =~= Seq::<(Seq<char>, Seq<char>)>::empty());
    assert(one.last() == pair);
    assert(entries_bytes(one.drop_last()) =~= Seq::<u8>::empty());
    assert(entries_bytes(one) =~= blob_bytes(entry_bytes(pair)));
    assert(list =~= done + one + rest);
    assert(list.take(k + 1) =~= done + one);
    lemma_entries_bytes_concat(done, one);
    lemma_entries_bytes_concat(done + one, rest);
}

/// A length-prefixed byte string is read back where it was written.
pub proof fn lemma_blob_at(pre: Seq<u8>, b: Seq<u8>, post: Seq<u8>)
    requires
        b.len() <= u32::MAX,
    ensures
        blob_spec(pre + blob_bytes(b) + post, pre.len() as int) == Some(
            (b, (pre.len() + 4 + b.len()) as int),
        ),
        blob_bytes(b).len() == 4 + b.len(),
{
    let s = pre + blob_bytes(b) + post;
    let at = pre.len() as int;
    crate::byteio::lemma_decode_encode_u32(0, b.len() as u32);
    assert(s.subrange(at, at + 4) =~= le_bytes_u32(b.len() as u32));
    assert(s.subrange(at + 4, at + 4 + b.len()) =~= b);
}

/// A number is read back where it was written.
pub proof fn lemma_number_at(pre: Seq<u8>, n: u32, post: Seq<u8>)
    ensures
        number_spec(pre + le_bytes_u32(n) + post, pre.len() as int) == Some(
            (n, (pre.len() + 4) as int),
        ),
{
    let s = pre + le_bytes_u32(n) + post;
    let at = pre.len() as int;
    crate::byteio::lemma_decode_encode_u32(0, n);
    assert(s.subrange(at, at + 4) =~= le_bytes_u32(n));
}

/// A comment whose key holds no `=` is read back as it was written.
pub proof fn lemma_entry_round_trip(pair: (Seq<char>, Seq<char>))
    requires
        no_equals(encode_utf8(pair.0)),
    ensures
        entry_spec(entry_bytes(pair)) == Ok::<(Seq<char>, Seq<char>), VorbisHeaderCheckError>(pair),
{
    let key = encode_utf8(pair.0);
    let value = encode_utf8(pair.1);
    let sign = seq![0x3du8];
    let entry = entry_bytes(pair);
    encode_utf8_valid_utf8(pair.0);
    encode_utf8_valid_utf8(pair.1);
    encode_utf8_decode_utf8(pair.0);
    encode_utf8_decode_utf8(pair.1);
    assert(valid_utf8(sign)) by {
        assert(sign[0] == 0x3d);
        assert(pop_first_scalar(sign) =~= Seq::<u8>::empty());
        assert(valid_utf8(pop_first_scalar(sign)));
        assert(valid_first_scalar(sign));
    }
    valid_utf8_concat(key, sign);
    valid_utf8_concat(key + sign, value);
    assert forall|j: int| 0 <= j < key.len() implies entry[j] != 0x3d by {
        assert(entry[j] == key[j]);
    }
    assert(entry[key.len() as int] == 0x3d);
    lemma_first_equals(entry, key.len() as int);
    assert(entry.subrange(0, key.len() as int) =~= key);
    assert(entry.subrange((key.len() + 1) as int, entry.len() as int) =~= value);
}

/// The bytes of two lists of comments, one behind the other.
pub proof fn lemma_entries_bytes_concat(
    a: Seq<(Seq<char>, Seq<char>)>,
    b: Seq<(Seq<char>, Seq<char>)>,
)
    ensures
        entries_bytes(a + b) == entries_bytes(a) + entries_bytes(b),
    decreases b.len(),
{
    if b.len() == 0 {
        assert(a + b =~= a);
        assert(entries_bytes(a) + entries_bytes(b) =~= entries_bytes(a));
    } else {
        lemma_entries_bytes_concat(a, b.drop_last());
        assert((a + b).drop_last() =~= a + b.drop_last());
        assert((a + b).last() == b.last());
        assert(entries_bytes(a + b) =~= entries_bytes(a) + entries_bytes(b));
    }
}

/// Before any comment is read, none is read.
proof fn lemma_entries_none(s: Seq<u8>, start: int)
    ensures
        entries_spec(s, start, 0) == Ok::<
            (Seq<(Seq<char>, Seq<char>)>, int),
            VorbisHeaderCheckError,
        >((Seq::<(Seq<char>, Seq<char>)>::empty(), start)),
{
    reveal(entries_spec);
}

/// One more comment read.
proof fn lemma_entries_step(
    s: Seq<u8>,
    start: int,
    k: nat,
    before: Seq<(Seq<char>, Seq<char>)>,
    at: int,
    entry: Seq<u8>,
    next: int,
)
    requires
        entries_spec(s, start, k) == Ok::<
            (Seq<(Seq<char>, Seq<char>)>, int),
            VorbisHeaderCheckError,
        >((before, at)),
        blob_spec(s, at) == Some((entry, next)),
        entry_spec(entry) is Ok,
    ensures
        entries_spec(s, start, k + 1) == Ok::<
            (Seq<(Seq<char>, Seq<char>)>, int),
            VorbisHeaderCheckError,
        >((before.push(entry_spec(entry)->Ok_0), next)),
{
    reveal(entries_spec);
}

/// Comments are read back one behind the other as they were written.
pub proof fn lemma_entries_round_trip(
    head: Seq<u8>,
    list: Seq<(Seq<char>, Seq<char>)>,
    tail: Seq<u8>,
    k: nat,
)
    requires
        k <= list.len(),
        keys_without_equals(list),
        forall|i: int| 0 <= i < list.len() ==> (#[trigger] entry_bytes(list[i])).len() <= u32::MAX,
    ensures
        entries_spec(head + entries_bytes(list) + tail, head.len() as int, k) == Ok::<
            (Seq<(Seq<char>, Seq<char>)>, int),
            VorbisHeaderCheckError,
        >((list.take(k as int), (head.len() + entries_bytes(list.take(k as int)).len()) as int)),
    decreases k,
{
    let s = head + entries_bytes(list) + tail;
    if k == 0 {
        lemma_entries_none(s, head.len() as int);
        assert(list.take(0) =~= Seq::<(Seq<char>, Seq<char>)>::empty());
        assert(entries_bytes(list.take(0)) =~= Seq::<u8>::empty());
    } else {
        lemma_entries_round_trip(head, list, tail, (k - 1) as nat);
        let done = list.take(k - 1);
        let pair = list[k - 1];
        let rest = list.skip(k as int);
        lemma_entries_bytes_at(list, k - 1);
        let pre = head + entries_bytes(done);
        let post = entries_bytes(rest) + tail;
        lemma_group_middle(
            head,
            entries_bytes(done),
            blob_bytes(entry_bytes(pair)),
            entries_bytes(rest),
            tail,
        );
        assert(s == pre + blob_bytes(entry_bytes(pair)) + post);
        assert(entry_bytes(pair).len() <= u32::MAX);
        lemma_blob_at(pre, entry_bytes(pair), post);
        assert(no_equals(encode_utf8(pair.0)));
        lemma_entry_round_trip(pair);
        lemma_entries_step(
            s,
            head.len() as int,
            (k - 1) as nat,
            done,
            pre.len() as int,
            entry_bytes(pair),
            (pre.len() + 4 + entry_bytes(pair).len()) as int,
        );
        assert(list.take(k as int) =~= done.push(pair));
    }
}

/// Where the parts of a comment header packet lie.
proof fn lemma_comment_packet_parts(m: CommentsModel)
    requires
        fits_packet(m),
    ensures
        blob_spec(comment_packet(m), 7) == Some(
            (encode_utf8(m.vendor), (11 + encode_utf8(m.vendor).len()) as int),
        ),
        number_spec(comment_packet(m), (11 + encode_utf8(m.vendor).len()) as int) == Some(
            (m.comments.len() as u32, (15 + encode_utf8(m.vendor).len()) as int),
        ),
        comment_packet(m) == seq![3u8] + magic() + blob_bytes(encode_utf8(m.vendor)) + le_bytes_u32(
            m.comments.len() as u32,
        ) + entries_bytes(m.comments) + seq![1u8],
        (seq![3u8] + magic() + blob_bytes(encode_utf8(m.vendor)) + le_bytes_u32(
            m.comments.len() as u32,
        )).len() == 15 + encode_utf8(m.vendor).len(),
        comment_packet(m).len() == 16 + encode_utf8(m.vendor).len() + entries_bytes(
            m.comments,
        ).len(),
        comment_packet(m)[0] == 3,
        comment_packet(m).subrange(1, 7) == magic(),
        comment_packet(m)[(15 + encode_utf8(m.vendor).len() + entries_bytes(m.comments).len()) as int]
            == 1,
{
    let s = comment_packet(m);
    let lead = seq![3u8] + magic();
    let vendor = encode_utf8(m.vendor);
    let count = le_bytes_u32(m.comments.len() as u32);
    let entries = entries_bytes(m.comments);
    let last = seq![1u8];
    assert(lead.len() == 7);
    lemma_group_three(lead + blob_bytes(vendor), count, entries, last);
    lemma_blob_at(lead, vendor, count + entries + last);
    let pre = lead + blob_bytes(vendor);
    lemma_number_at(pre, m.comments.len() as u32, entries + last);
    assert(count.len() == 4);
    assert(s.subrange(1, 7) =~= magic());
}

/// Building undoes reading: the comment header packet built for comments
/// whose keys hold no `=` is a well-formed comment header that reads back
/// as those comments.
pub proof fn lemma_comment_round_trip(m: CommentsModel)
    requires
        fits_packet(m),
        keys_without_equals(m.comments),
    ensures
        comments_spec(comment_packet(m)) == Ok::<CommentsModel, VorbisHeaderCheckError>(m),
        is_comments(comment_packet(m)),
{
    let head = seq![3u8] + magic() + blob_bytes(encode_utf8(m.vendor)) + le_bytes_u32(
        m.comments.len() as u32,
    );
    encode_utf8_valid_utf8(m.vendor);
    encode_utf8_decode_utf8(m.vendor);
    lemma_comment_packet_parts(m);
    lemma_entries_round_trip(head, m.comments, seq![1u8], m.comments.len());
    assert(m.comments.take(m.comments.len() as int) =~= m.comments);
    assert(1u8 & 1 == 1) by (bit_vector);
}

} // verus!

verus! {

/// The first `=` is not behind a `=`.
pub proof fn lemma_first_equals_bound(e: Seq<u8>, i: int)
    requires
        0 <= i < e.len(),
        e[i] == 0x3d,
    ensures
        0 <= first_equals(e) <= i,
    decreases e.len(),
{
    if e[0] != 0x3d {
        lemma_first_equals_bound(e.drop_first(), i - 1);
    }
}

/// A comment that was written reads as a comment, whatever its key is.
pub proof fn lemma_entry_reads(pair: (Seq<char>, Seq<char>))
    ensures
        entry_spec(entry_bytes(pair)) is Ok,
{
    let key = encode_utf8(pair.0);
    let value = encode_utf8(pair.1);
    let sign = seq![0x3du8];
    let entry = entry_bytes(pair);
    encode_utf8_valid_utf8(pair.0);
    encode_utf8_valid_utf8(pair.1);
    assert(valid_utf8(sign)) by {
        assert(sign[0] == 0x3d);
        assert(pop_first_scalar(sign) =~= Seq::<u8>::empty());
        assert(valid_utf8(pop_first_scalar(sign)));
        assert(valid_first_scalar(sign));
    }
    valid_utf8_concat(key, sign);
    valid_utf8_concat(key + sign, value);
    assert(entry[key.len() as int] == 0x3d);
    lemma_first_equals_bound(entry, key.len() as int);
}

/// Comments that were written read as comments, one behind the other, up
/// to where they end.
pub proof fn lemma_entries_read(
    head: Seq<u8>,
    list: Seq<(Seq<char>, Seq<char>)>,
    tail: Seq<u8>,
    k: nat,
)
    requires
        k <= list.len(),
        forall|i: int| 0 <= i < list.len() ==> (#[trigger] entry_bytes(list[i])).len() <= u32::MAX,
    ensures
        entries_spec(head + entries_bytes(list) + tail, head.len() as int, k) is Ok,
        entries_spec(head + entries_bytes(list) + tail, head.len() as int, k)->Ok_0.1 == head.len()
            + entries_bytes(list.take(k as int)).len(),
    decreases k,
{
    let s = head + entries_bytes(list) + tail;
    if k == 0 {
        lemma_entries_none(s, head.len() as int);
        assert(entries_bytes(list.take(0)) =~= Seq::<u8>::empty());
    } else {
        lemma_entries_read(head, list, tail, (k - 1) as nat);
        let done = list.take(k - 1);
        let pair = list[k - 1];
        let rest = list.skip(k as int);
        lemma_entries_bytes_at(list, k - 1);
        let pre = head + entries_bytes(done);
        let post = entries_bytes(rest) + tail;
        lemma_group_middle(
            head,
            entries_bytes(done),
            blob_bytes(entry_bytes(pair)),
            entries_bytes(rest),
            tail,
        );
        assert(s == pre + blob_bytes(entry_bytes(pair)) + post);
        assert(entry_bytes(pair).len() <= u32::MAX);
        lemma_blob_at(pre, entry_bytes(pair), post);
        lemma_entry_reads(pair);
        let before = entries_spec(s, head.len() as int, (k - 1) as nat)->Ok_0.0;
        lemma_entries_step(
            s,
            head.len() as int,
            (k - 1) as nat,
            before,
            pre.len() as int,
            entry_bytes(pair),
            (pre.len() + 4 + entry_bytes(pair).len()) as int,
        );
    }
}

/// The comment header packet built for comments is a well-formed comment
/// header.
pub proof fn lemma_comment_packet_reads(m: CommentsModel)
    requires
        fits_packet(m),
    ensures
        is_comments(comment_packet(m)),
{
    let head = seq![3u8] + magic() + blob_bytes(encode_utf8(m.vendor)) + le_bytes_u32(
        m.comments.len() as u32,
    );
    encode_utf8_valid_utf8(m.vendor);
    lemma_comment_packet_parts(m);
    lemma_entries_read(head, m.comments, seq![1u8], m.comments.len());
    assert(m.comments.take(m.comments.len() as int) =~= m.comments);
    assert(1u8 & 1 == 1) by (bit_vector);
}

} // verus!
