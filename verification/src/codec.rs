//! How requests and answers are written to the wire and read from it.
//!
//! A struct is written as its type tag, the number of its fields, and for
//! each field its name as a string and its value. A reader passes over
//! fields that it does not know; of a field that comes twice it keeps the
//! last.

use vstd::prelude::*;
use vstd::utf8::*;
use crate::byteio::{append_bytes, be_bytes_u16, be_bytes_u32};
use crate::proto::{
    blob_wire, header_spec, read_empty_struct, read_header, skip_entity, skip_spec, string_parse,
    string_wire, write_count, write_empty_struct, write_str, write_tag, empty_struct_spec,
    empty_struct_wire, Cursor, Deserialize, ProtoError, RoundTrip, Serialize, TYPE_STRUCT,
};
use crate::proxy::{
    EnqueueTrackError, EnqueueTrackRequest, FastForward, FastForwardError, FastForwardRequest,
    Queue, ReplaceFallbackError, ReplaceFallbackRequest, StatusError, StatusRequest,
};
use crate::queue::{infos_model, Handle, TrackInfo, TrackInfoModel};
use crate::vorbis::pairs_model;

verus! {

/// Whether two strings are the same.
pub fn str_eq(a: &str, b: &str) -> (same: bool)
    ensures
        same == (a@ == b@),
{
    let x = a.as_bytes();
    let y = b.as_bytes();
    proof {
        encode_utf8_decode_utf8(a@);
        encode_utf8_decode_utf8(b@);
    }
    if x.len() != y.len() {
        return false;
    }
    let mut i: usize = 0;
    while i < x.len()
        invariant
            i <= x@.len(),
            x@.len() == y@.len(),
            x@ == encode_utf8(a@),
            y@ == encode_utf8(b@),
            forall|j: int| 0 <= j < i ==> x@[j] == y@[j],
        decreases x@.len() - i,
    {
        if x[i] != y[i] {
            return false;
        }
        i = i + 1;
    }
    proof {
        assert(x@ =~= y@);
        encode_utf8_decode_utf8(a@);
        encode_utf8_decode_utf8(b@);
    }
    true
}

/// The fields of a struct, as far as they have been read.
pub trait FieldSink: Sized {
    /// What has been read, as plain values.
    type Parts;

    /// What has been read.
    spec fn parts(&self) -> Self::Parts;

    /// Nothing read yet.
    spec fn start() -> Self::Parts;

    /// What has been read after the field `name`, whose value `v` begins
    /// with, and the number of bytes that the value takes.
    spec fn field(parts: Self::Parts, name: Seq<char>, v: Seq<u8>) -> Result<
        (Self::Parts, nat),
        ProtoError,
    >;

    /// Nothing read yet.
    fn empty() -> (sink: Self)
        ensures
            sink.parts() == Self::start(),
    ;

    /// Reads the value of the field `name` at the cursor.
    fn accept(&mut self, name: &str, buf: &mut Cursor) -> (r: Result<(), ProtoError>)
        requires
            old(buf).wf(),
        ensures
            final(buf).wf(),
            match r {
                Ok(_) => match Self::field(old(self).parts(), name@, old(buf).rest()) {
                    Ok((parts, n)) => final(self).parts() == parts && n <= old(buf).rest().len()
                        && final(buf).rest() == old(buf).rest().skip(n as int),
                    Err(_) => false,
                },
                Err(e) => Self::field(old(self).parts(), name@, old(buf).rest()) == Err::<
                    (Self::Parts, nat),
                    ProtoError,
                >(e),
            },
    ;
}

/// What has been read after the field that `s` begins with, and the number
/// of bytes that the field takes.
#[verifier::opaque]
pub open spec fn one_field<S: FieldSink>(parts: S::Parts, s: Seq<u8>) -> Result<
    (S::Parts, nat),
    ProtoError,
> {
    match string_parse(s) {
        Err(e) => Err(e),
        Ok((name, a)) => if a > s.len() {
            Err(ProtoError::Truncated)
        } else {
            match S::field(parts, name, s.skip(a as int)) {
                Err(e) => Err(e),
                Ok((next, b)) => Ok((next, a + b)),
            }
        },
    }
}

/// What has been read after the first `count` fields of `s` from `start`,
/// and the offset behind them.
#[verifier::opaque]
pub open spec fn fields<S: FieldSink>(s: Seq<u8>, start: nat, count: nat) -> Result<
    (S::Parts, nat),
    ProtoError,
>
    decreases count,
{
    if count == 0 {
        Ok((S::start(), start))
    } else {
        match fields::<S>(s, start, (count - 1) as nat) {
            Err(e) => Err(e),
            Ok((parts, at)) => if at > s.len() {
                Err(ProtoError::Truncated)
            } else {
                match one_field::<S>(parts, s.skip(at as int)) {
                    Err(e) => Err(e),
                    Ok((next, n)) => Ok((next, at + n)),
                }
            },
        }
    }
}

/// The fields of the struct that `s` begins with, and the number of bytes
/// that the struct takes.
pub open spec fn struct_spec<S: FieldSink>(s: Seq<u8>) -> Result<(S::Parts, nat), ProtoError> {
    match header_spec(s, TYPE_STRUCT) {
        Err(e) => Err(e),
        Ok(n) => fields::<S>(s, 6, n as nat),
    }
}

/// An error among the first fields is the error of all.
pub proof fn lemma_fields_error<S: FieldSink>(s: Seq<u8>, start: nat, k: nat, count: nat)
    requires
        k <= count,
        fields::<S>(s, start, k) is Err,
    ensures
        fields::<S>(s, start, count) == fields::<S>(s, start, k),
    decreases count,
{
    reveal(fields);
    if k < count {
        lemma_fields_error::<S>(s, start, k, (count - 1) as nat);
    }
}

/// Reads a struct: its type tag, the number of its fields, and the fields.
pub fn read_struct<S: FieldSink>(buf: &mut Cursor) -> (r: Result<S, ProtoError>)
    requires
        old(buf).wf(),
    ensures
        final(buf).wf(),
        match r {
            Ok(sink) => match struct_spec::<S>(old(buf).rest()) {
                Ok((parts, n)) => sink.parts() == parts && n <= old(buf).rest().len() && final(buf).rest() == old(buf).rest().skip(n as int),
                Err(_) => false,
            },
            Err(e) => struct_spec::<S>(old(buf).rest()) == Err::<(S::Parts, nat), ProtoError>(e),
        },
{
    let ghost whole = old(buf).rest();
    let field_count = read_header(buf, TYPE_STRUCT)?;
    let mut sink = S::empty();
    let ghost mut at: nat = 6;
    let mut i: u32 = 0;
    proof {
        reveal(fields);
    }
    while i < field_count
        invariant
            buf.wf(),
            i <= field_count,
            whole == old(buf).rest(),
            header_spec(whole, TYPE_STRUCT) == Ok::<u32, ProtoError>(field_count),
            at <= whole.len(),
            buf.rest() == whole.skip(at as int),
            fields::<S>(whole, 6, i as nat) == Ok::<(S::Parts, nat), ProtoError>(
                (sink.parts(), at),
            ),
        decreases field_count - i,
    {
        let ghost field = whole.skip(at as int);
        proof {
            reveal(fields);
            reveal(one_field);
        }
        let name = match String::read(buf) {
            Ok(name) => name,
            Err(e) => {
                proof {
                    assert(fields::<S>(whole, 6, (i + 1) as nat) is Err);
                    lemma_fields_error::<S>(whole, 6, (i + 1) as nat, field_count as nat);
                }
                return Err(e);
            },
        };
        match sink.accept(name.as_str(), buf) {
            Ok(_) => {},
            Err(e) => {
                proof {
                    assert(fields::<S>(whole, 6, (i + 1) as nat) is Err);
                    lemma_fields_error::<S>(whole, 6, (i + 1) as nat, field_count as nat);
                }
                return Err(e);
            },
        }
        proof {
            let a = string_parse(field)->Ok_0.1;
            let b = S::field(
                fields::<S>(whole, 6, i as nat)->Ok_0.0,
                name@,
                field.skip(a as int),
            )->Ok_0.1;
            assert(field.skip(a as int).skip(b as int) =~= whole.skip((at + a + b) as int));
            at = at + a + b;
        }
        i = i + 1;
    }
    Ok(sink)
}

/// What reading a value of a field gives: the value and the bytes it takes,
/// or the bytes of a value that is passed over.
pub open spec fn skipped<P>(parts: P, v: Seq<u8>) -> Result<(P, nat), ProtoError> {
    match skip_spec(v) {
        Err(e) => Err(e),
        Ok(n) => Ok((parts, n)),
    }
}

/// Appends the name of a struct field.
fn write_name(name: &str, buf: &mut Vec<u8>)
    requires
        name@.len() <= 32,
        is_ascii_chars(name@),
    ensures
        final(buf)@ == old(buf)@ + string_wire(name@),
{
    proof {
        is_ascii_chars_encode_utf8(name@);
    }
    let _ = write_str(name, buf);
}

impl Serialize for Handle {
    open spec fn wire(&self) -> Seq<u8> {
        self.0.wire()
    }

    open spec fn writable(&self) -> bool {
        true
    }

    fn write(&self, buf: &mut Vec<u8>) -> (r: Result<(), ProtoError>) {
        self.0.write(buf)
    }
}

impl Deserialize for Handle {
    type Model = Handle;

    open spec fn model(&self) -> Handle {
        *self
    }

    open spec fn parse(s: Seq<u8>) -> Result<(Handle, nat), ProtoError> {
        match u64::parse(s) {
            Err(e) => Err(e),
            Ok((n, k)) => Ok((Handle(n), k)),
        }
    }

    fn read(buf: &mut Cursor) -> (r: Result<Self, ProtoError>) {
        let val = u64::read(buf)?;
        Ok(Handle(val))
    }
}

/// What a number read for an error or a kind gives: the value it stands
/// for, if it stands for one.
pub open spec fn coded<T>(s: Seq<u8>, value: spec_fn(u32) -> Option<T>) -> Result<
    (T, nat),
    ProtoError,
> {
    match u32::parse(s) {
        Err(e) => Err(e),
        Ok((n, k)) => match value(n) {
            None => Err(ProtoError::BadValue),
            Some(v) => Ok((v, k)),
        },
    }
}

impl Serialize for EnqueueTrackError {
    open spec fn wire(&self) -> Seq<u8> {
        self.code().wire()
    }

    open spec fn writable(&self) -> bool {
        true
    }

    fn write(&self, buf: &mut Vec<u8>) -> (r: Result<(), ProtoError>) {
        self.to_u32().write(buf)
    }
}

impl Deserialize for EnqueueTrackError {
    type Model = EnqueueTrackError;

    open spec fn model(&self) -> EnqueueTrackError {
        *self
    }

    open spec fn parse(s: Seq<u8>) -> Result<(EnqueueTrackError, nat), ProtoError> {
        coded(s, |n: u32| EnqueueTrackError::from_code(n))
    }

    fn read(buf: &mut Cursor) -> (r: Result<Self, ProtoError>) {
        let num = u32::read(buf)?;
        match EnqueueTrackError::from_u32(num) {
            Some(e) => Ok(e),
            None => Err(ProtoError::BadValue),
        }
    }
}

impl Serialize for ReplaceFallbackError {
    open spec fn wire(&self) -> Seq<u8> {
        self.code().wire()
    }

    open spec fn writable(&self) -> bool {
        true
    }

    fn write(&self, buf: &mut Vec<u8>) -> (r: Result<(), ProtoError>) {
        self.to_u32().write(buf)
    }
}

impl Deserialize for ReplaceFallbackError {
    type Model = ReplaceFallbackError;

    open spec fn model(&self) -> ReplaceFallbackError {
        *self
    }

    open spec fn parse(s: Seq<u8>) -> Result<(ReplaceFallbackError, nat), ProtoError> {
        coded(s, |n: u32| ReplaceFallbackError::from_code(n))
    }

    fn read(buf: &mut Cursor) -> (r: Result<Self, ProtoError>) {
        let num = u32::read(buf)?;
        match ReplaceFallbackError::from_u32(num) {
            Some(e) => Ok(e),
            None => Err(ProtoError::BadValue),
        }
    }
}

impl Serialize for FastForward {
    open spec fn wire(&self) -> Seq<u8> {
        self.code().wire()
    }

    open spec fn writable(&self) -> bool {
        true
    }

    fn write(&self, buf: &mut Vec<u8>) -> (r: Result<(), ProtoError>) {
        self.to_u32().write(buf)
    }
}

impl Deserialize for FastForward {
    type Model = FastForward;

    open spec fn model(&self) -> FastForward {
        *self
    }

    open spec fn parse(s: Seq<u8>) -> Result<(FastForward, nat), ProtoError> {
        coded(s, |n: u32| FastForward::from_code(n))
    }

    fn read(buf: &mut Cursor) -> (r: Result<Self, ProtoError>) {
        let num = u32::read(buf)?;
        match FastForward::from_u32(num) {
            Some(kind) => Ok(kind),
            None => Err(ProtoError::BadValue),
        }
    }
}

impl Serialize for FastForwardError {
    open spec fn wire(&self) -> Seq<u8> {
        empty_struct_wire()
    }

    open spec fn writable(&self) -> bool {
        true
    }

    fn write(&self, buf: &mut Vec<u8>) -> (r: Result<(), ProtoError>) {
        write_empty_struct(buf)
    }
}

impl Deserialize for FastForwardError {
    type Model = FastForwardError;

    open spec fn model(&self) -> FastForwardError {
        *self
    }

    open spec fn parse(s: Seq<u8>) -> Result<(FastForwardError, nat), ProtoError> {
        match empty_struct_spec(s) {
            Err(e) => Err(e),
            Ok(n) => Ok((FastForwardError, n)),
        }
    }

    fn read(buf: &mut Cursor) -> (r: Result<Self, ProtoError>) {
        read_empty_struct(buf)?;
        Ok(FastForwardError)
    }
}

impl Serialize for StatusError {
    open spec fn wire(&self) -> Seq<u8> {
        empty_struct_wire()
    }

    open spec fn writable(&self) -> bool {
        true
    }

    fn write(&self, buf: &mut Vec<u8>) -> (r: Result<(), ProtoError>) {
        write_empty_struct(buf)
    }
}

impl Deserialize for StatusError {
    type Model = StatusError;

    open spec fn model(&self) -> StatusError {
        *self
    }

    open spec fn parse(s: Seq<u8>) -> Result<(StatusError, nat), ProtoError> {
        match empty_struct_spec(s) {
            Err(e) => Err(e),
            Ok(n) => Ok((StatusError, n)),
        }
    }

    fn read(buf: &mut Cursor) -> (r: Result<Self, ProtoError>) {
        read_empty_struct(buf)?;
        Ok(StatusError)
    }
}

impl Serialize for StatusRequest {
    open spec fn wire(&self) -> Seq<u8> {
        empty_struct_wire()
    }

    open spec fn writable(&self) -> bool {
        true
    }

    fn write(&self, buf: &mut Vec<u8>) -> (r: Result<(), ProtoError>) {
        write_empty_struct(buf)
    }
}

impl Deserialize for StatusRequest {
    type Model = StatusRequest;

    open spec fn model(&self) -> StatusRequest {
        *self
    }

    open spec fn parse(s: Seq<u8>) -> Result<(StatusRequest, nat), ProtoError> {
        match empty_struct_spec(s) {
            Err(e) => Err(e),
            Ok(n) => Ok((StatusRequest, n)),
        }
    }

    fn read(buf: &mut Cursor) -> (r: Result<Self, ProtoError>) {
        read_empty_struct(buf)?;
        Ok(StatusRequest)
    }
}

/// The fields of a fast-forward request, as far as read.
pub struct FastForwardParts {
    pub kind: Option<FastForward>,
}

impl FieldSink for FastForwardParts {
    type Parts = Option<FastForward>;

    open spec fn parts(&self) -> Option<FastForward> {
        self.kind
    }

    open spec fn start() -> Option<FastForward> {
        None
    }

    open spec fn field(parts: Option<FastForward>, name: Seq<char>, v: Seq<u8>) -> Result<
        (Option<FastForward>, nat),
        ProtoError,
    > {
        if name == "kind"@ {
            match FastForward::parse(v) {
                Err(e) => Err(e),
                Ok((kind, n)) => Ok((Some(kind), n)),
            }
        } else {
            skipped(parts, v)
        }
    }

    fn empty() -> (sink: Self) {
        FastForwardParts { kind: None }
    }

    fn accept(&mut self, name: &str, buf: &mut Cursor) -> (r: Result<(), ProtoError>) {
        if str_eq(name, "kind") {
            self.kind = Some(FastForward::read(buf)?);
        } else {
            skip_entity(buf)?;
        }
        Ok(())
    }
}

impl Serialize for FastForwardRequest {
    open spec fn wire(&self) -> Seq<u8> {
        be_bytes_u16(TYPE_STRUCT) + be_bytes_u32(1) + string_wire("kind"@) + self.kind.wire()
    }

    open spec fn writable(&self) -> bool {
        true
    }

    fn write(&self, buf: &mut Vec<u8>) -> (r: Result<(), ProtoError>) {
        write_tag(buf, TYPE_STRUCT);
        write_count(buf, 1);
        proof {
            reveal_strlit("kind");
        }
        write_name("kind", buf);
        let _ = self.kind.write(buf);
        assert(buf@ =~= old(buf)@ + self.wire());
        Ok(())
    }
}

impl Deserialize for FastForwardRequest {
    type Model = FastForwardRequest;

    open spec fn model(&self) -> FastForwardRequest {
        *self
    }

    open spec fn parse(s: Seq<u8>) -> Result<(FastForwardRequest, nat), ProtoError> {
        match struct_spec::<FastForwardParts>(s) {
            Err(e) => Err(e),
            Ok((parts, n)) => match parts {
                None => Err(ProtoError::MissingField),
                Some(kind) => Ok((FastForwardRequest { kind }, n)),
            },
        }
    }

    fn read(buf: &mut Cursor) -> (r: Result<Self, ProtoError>) {
        let parts = read_struct::<FastForwardParts>(buf)?;
        match parts.kind {
            Some(kind) => Ok(FastForwardRequest { kind }),
            None => Err(ProtoError::MissingField),
        }
    }
}

} // verus!

verus! {

/// What a request that carries a track holds, as plain values.
pub struct TrackRequestModel {
    pub track: Seq<u8>,
    pub metadata: Option<Seq<(Seq<char>, Seq<char>)>>,
}

/// The fields of a request that carries a track, as far as read.
pub struct TrackRequestParts {
    pub track: Option<Vec<u8>>,
    pub metadata: Option<Vec<(String, String)>>,
}

/// The fields of a request that carries a track, as plain values.
pub struct TrackRequestPartsModel {
    pub track: Option<Seq<u8>>,
    pub metadata: Option<Seq<(Seq<char>, Seq<char>)>>,
}

impl FieldSink for TrackRequestParts {
    type Parts = TrackRequestPartsModel;

    open spec fn parts(&self) -> TrackRequestPartsModel {
        TrackRequestPartsModel {
            track: match self.track {
                Some(track) => Some(track@),
                None => None,
            },
            metadata: match self.metadata {
                Some(list) => Some(pairs_model(list@)),
                None => None,
            },
        }
    }

    open spec fn start() -> TrackRequestPartsModel {
        TrackRequestPartsModel { track: None, metadata: None }
    }

    open spec fn field(parts: TrackRequestPartsModel, name: Seq<char>, v: Seq<u8>) -> Result<
        (TrackRequestPartsModel, nat),
        ProtoError,
    > {
        if name == "track"@ {
            match Vec::<u8>::parse(v) {
                Err(e) => Err(e),
                Ok((track, n)) => Ok((TrackRequestPartsModel { track: Some(track), ..parts }, n)),
            }
        } else if name == "metadata"@ {
            match Vec::<(String, String)>::parse(v) {
                Err(e) => Err(e),
                Ok((list, n)) => Ok((TrackRequestPartsModel { metadata: Some(list), ..parts }, n)),
            }
        } else {
            skipped(parts, v)
        }
    }

    fn empty() -> (sink: Self) {
        TrackRequestParts { track: None, metadata: None }
    }

    fn accept(&mut self, name: &str, buf: &mut Cursor) -> (r: Result<(), ProtoError>) {
        if str_eq(name, "track") {
            self.track = Some(Vec::<u8>::read(buf)?);
        } else if str_eq(name, "metadata") {
            let list = Vec::<(String, String)>::read(buf)?;
            assert(pairs_model(list@) =~= list.model());
            self.metadata = Some(list);
        } else {
            skip_entity(buf)?;
        }
        Ok(())
    }
}

/// The request that the fields of a struct make, if the track is among
/// them.
pub open spec fn track_request(s: Seq<u8>) -> Result<(TrackRequestModel, nat), ProtoError> {
    match struct_spec::<TrackRequestParts>(s) {
        Err(e) => Err(e),
        Ok((parts, n)) => match parts.track {
            None => Err(ProtoError::MissingField),
            Some(track) => Ok((TrackRequestModel { track, metadata: parts.metadata }, n)),
        },
    }
}

/// The bytes that stand for a request that carries a track.
pub open spec fn track_request_wire(track: Seq<u8>, metadata: Option<Vec<(String, String)>>) -> Seq<
    u8,
> {
    be_bytes_u16(TYPE_STRUCT) + be_bytes_u32(
        if metadata is Some {
            2u32
        } else {
            1u32
        },
    ) + string_wire("track"@) + blob_wire(track) + match metadata {
        Some(list) => string_wire("metadata"@) + list.wire(),
        None => Seq::<u8>::empty(),
    }
}

/// A request that carries a track can be written: the lengths fit.
pub open spec fn track_request_writable(
    track: Seq<u8>,
    metadata: Option<Vec<(String, String)>>,
) -> bool {
    track.len() <= u32::MAX && match metadata {
        Some(list) => list.writable(),
        None => true,
    }
}

/// Appends the bytes that stand for a request that carries a track.
fn write_track_request(track: &Vec<u8>, metadata: &Option<Vec<(String, String)>>, buf: &mut Vec<
    u8,
>) -> (r: Result<(), ProtoError>)
    ensures
        match r {
            Ok(_) => track_request_writable(track@, *metadata) && final(buf)@ == old(buf)@
                + track_request_wire(track@, *metadata),
            Err(e) => !track_request_writable(track@, *metadata) && e == ProtoError::TooLong,
        },
{
    let mut out: Vec<u8> = Vec::new();
    write_tag(&mut out, TYPE_STRUCT);
    write_count(&mut out, if metadata.is_some() { 2 } else { 1 });
    write_track_field(track, &mut out)?;
    match metadata {
        Some(list) => {
            write_metadata_field(list, &mut out)?;
        },
        None => {
            assert(out@ =~= out@ + Seq::<u8>::empty());
        },
    }
    assert(out@ =~= track_request_wire(track@, *metadata));
    append_bytes(buf, out.as_slice());
    Ok(())
}

/// Appends the track of a request under its name.
fn write_track_field(track: &Vec<u8>, buf: &mut Vec<u8>) -> (r: Result<(), ProtoError>)
    ensures
        match r {
            Ok(_) => track@.len() <= u32::MAX && final(buf)@ == old(buf)@ + string_wire("track"@)
                + blob_wire(track@),
            Err(e) => track@.len() > u32::MAX && e == ProtoError::TooLong,
        },
{
    proof {
        reveal_strlit("track");
    }
    write_name("track", buf);
    track.write(buf)
}

/// Appends the comments of a request under their name.
fn write_metadata_field(list: &Vec<(String, String)>, buf: &mut Vec<u8>) -> (r: Result<
    (),
    ProtoError,
>)
    ensures
        match r {
            Ok(_) => list.writable() && final(buf)@ == old(buf)@ + string_wire("metadata"@)
                + list.wire(),
            Err(e) => !list.writable() && e == ProtoError::TooLong,
        },
{
    proof {
        reveal_strlit("metadata");
    }
    write_name("metadata", buf);
    list.write(buf)
}

impl Serialize for EnqueueTrackRequest {
    open spec fn wire(&self) -> Seq<u8> {
        track_request_wire(self.track@, self.metadata)
    }

    open spec fn writable(&self) -> bool {
        track_request_writable(self.track@, self.metadata)
    }

    fn write(&self, buf: &mut Vec<u8>) -> (r: Result<(), ProtoError>) {
        write_track_request(&self.track, &self.metadata, buf)
    }
}

impl Deserialize for EnqueueTrackRequest {
    type Model = TrackRequestModel;

    open spec fn model(&self) -> TrackRequestModel {
        TrackRequestModel {
            track: self.track@,
            metadata: match self.metadata {
                Some(list) => Some(pairs_model(list@)),
                None => None,
            },
        }
    }

    open spec fn parse(s: Seq<u8>) -> Result<(TrackRequestModel, nat), ProtoError> {
        track_request(s)
    }

    fn read(buf: &mut Cursor) -> (r: Result<Self, ProtoError>) {
        let parts = read_struct::<TrackRequestParts>(buf)?;
        match parts.track {
            Some(track) => Ok(EnqueueTrackRequest { track, metadata: parts.metadata }),
            None => Err(ProtoError::MissingField),
        }
    }
}

impl Serialize for ReplaceFallbackRequest {
    open spec fn wire(&self) -> Seq<u8> {
        track_request_wire(self.track@, self.metadata)
    }

    open spec fn writable(&self) -> bool {
        track_request_writable(self.track@, self.metadata)
    }

    fn write(&self, buf: &mut Vec<u8>) -> (r: Result<(), ProtoError>) {
        write_track_request(&self.track, &self.metadata, buf)
    }
}

impl Deserialize for ReplaceFallbackRequest {
    type Model = TrackRequestModel;

    open spec fn model(&self) -> TrackRequestModel {
        TrackRequestModel {
            track: self.track@,
            metadata: match self.metadata {
                Some(list) => Some(pairs_model(list@)),
                None => None,
            },
        }
    }

    open spec fn parse(s: Seq<u8>) -> Result<(TrackRequestModel, nat), ProtoError> {
        track_request(s)
    }

    fn read(buf: &mut Cursor) -> (r: Result<Self, ProtoError>) {
        let parts = read_struct::<TrackRequestParts>(buf)?;
        match parts.track {
            Some(track) => Ok(ReplaceFallbackRequest { track, metadata: parts.metadata }),
            None => Err(ProtoError::MissingField),
        }
    }
}

/// The 64 bits that stand for a signed number: its two's complement.
pub open spec fn signed_bits(n: i64) -> u64 {
    if n >= 0 {
        n as u64
    } else {
        (n + 0x1_0000_0000_0000_0000) as u64
    }
}

/// The signed number that 64 bits stand for.
pub open spec fn signed_value(bits: u64) -> i64 {
    if bits < 0x8000_0000_0000_0000 {
        bits as i64
    } else {
        (bits - 0x1_0000_0000_0000_0000) as i64
    }
}

/// The 64 bits that stand for a signed number.
pub fn to_signed_bits(n: i64) -> (bits: u64)
    ensures
        bits == signed_bits(n),
        signed_value(bits) == n,
{
    if n >= 0 {
        n as u64
    } else {
        (n as i128 + 0x1_0000_0000_0000_0000i128) as u64
    }
}

/// The signed number that 64 bits stand for.
pub fn from_signed_bits(bits: u64) -> (n: i64)
    ensures
        n == signed_value(bits),
        signed_bits(n) == bits,
{
    if bits < 0x8000_0000_0000_0000 {
        bits as i64
    } else {
        (bits as i128 - 0x1_0000_0000_0000_0000i128) as i64
    }
}

/// The fields of a track info, as far as read.
pub struct TrackInfoParts {
    pub handle: Option<Handle>,
    pub started_at: Option<i64>,
    pub artist: Option<String>,
    pub album: Option<String>,
    pub title: Option<String>,
    pub sample_rate: Option<u64>,
    pub sample_count: Option<u64>,
    pub sample_position: Option<u64>,
}

/// The fields of a track info, as plain values.
pub struct TrackInfoPartsModel {
    pub handle: Option<Handle>,
    pub started_at: Option<i64>,
    pub artist: Option<Seq<char>>,
    pub album: Option<Seq<char>>,
    pub title: Option<Seq<char>>,
    pub sample_rate: Option<u64>,
    pub sample_count: Option<u64>,
    pub sample_position: Option<u64>,
}

/// What a string that may be there holds.
pub open spec fn text_model(text: Option<String>) -> Option<Seq<char>> {
    match text {
        Some(text) => Some(text@),
        None => None,
    }
}

impl FieldSink for TrackInfoParts {
    type Parts = TrackInfoPartsModel;

    open spec fn parts(&self) -> TrackInfoPartsModel {
        TrackInfoPartsModel {
            handle: self.handle,
            started_at: self.started_at,
            artist: text_model(self.artist),
            album: text_model(self.album),
            title: text_model(self.title),
            sample_rate: self.sample_rate,
            sample_count: self.sample_count,
            sample_position: self.sample_position,
        }
    }

    open spec fn start() -> TrackInfoPartsModel {
        TrackInfoPartsModel {
            handle: None,
            started_at: None,
            artist: None,
            album: None,
            title: None,
            sample_rate: None,
            sample_count: None,
            sample_position: None,
        }
    }

    open spec fn field(parts: TrackInfoPartsModel, name: Seq<char>, v: Seq<u8>) -> Result<
        (TrackInfoPartsModel, nat),
        ProtoError,
    > {
        if name == "handle"@ {
            match Handle::parse(v) {
                Err(e) => Err(e),
                Ok((x, n)) => Ok((TrackInfoPartsModel { handle: Some(x), ..parts }, n)),
            }
        } else if name == "started_at"@ {
            match u64::parse(v) {
                Err(e) => Err(e),
                Ok((x, n)) => Ok(
                    (TrackInfoPartsModel { started_at: Some(signed_value(x)), ..parts }, n),
                ),
            }
        } else if name == "artist"@ {
            match string_parse(v) {
                Err(e) => Err(e),
                Ok((x, n)) => Ok((TrackInfoPartsModel { artist: Some(x), ..parts }, n)),
            }
        } else if name == "album"@ {
            match string_parse(v) {
                Err(e) => Err(e),
                Ok((x, n)) => Ok((TrackInfoPartsModel { album: Some(x), ..parts }, n)),
            }
        } else if name == "title"@ {
            match string_parse(v) {
                Err(e) => Err(e),
                Ok((x, n)) => Ok((TrackInfoPartsModel { title: Some(x), ..parts }, n)),
            }
        } else if name == "sample_rate"@ {
            match u64::parse(v) {
                Err(e) => Err(e),
                Ok((x, n)) => Ok((TrackInfoPartsModel { sample_rate: Some(x), ..parts }, n)),
            }
        } else if name == "sample_count"@ {
            match u64::parse(v) {
                Err(e) => Err(e),
                Ok((x, n)) => Ok((TrackInfoPartsModel { sample_count: Some(x), ..parts }, n)),
            }
        } else if name == "sample_position"@ {
            match u64::parse(v) {
                Err(e) => Err(e),
                Ok((x, n)) => Ok((TrackInfoPartsModel { sample_position: Some(x), ..parts }, n)),
            }
        } else {
            skipped(parts, v)
        }
    }

    fn empty() -> (sink: Self) {
        TrackInfoParts {
            handle: None,
            started_at: None,
            artist: None,
            album: None,
            title: None,
            sample_rate: None,
            sample_count: None,
            sample_position: None,
        }
    }

    fn accept(&mut self, name: &str, buf: &mut Cursor) -> (r: Result<(), ProtoError>) {
        if str_eq(name, "handle") {
            self.handle = Some(Handle::read(buf)?);
        } else if str_eq(name, "started_at") {
            self.started_at = Some(from_signed_bits(u64::read(buf)?));
        } else if str_eq(name, "artist") {
            self.artist = Some(String::read(buf)?);
        } else if str_eq(name, "album") {
            self.album = Some(String::read(buf)?);
        } else if str_eq(name, "title") {
            self.title = Some(String::read(buf)?);
        } else if str_eq(name, "sample_rate") {
            self.sample_rate = Some(u64::read(buf)?);
        } else if str_eq(name, "sample_count") {
            self.sample_count = Some(u64::read(buf)?);
        } else if str_eq(name, "sample_position") {
            self.sample_position = Some(u64::read(buf)?);
        } else {
            skip_entity(buf)?;
        }
        Ok(())
    }
}

/// The track info that fields make, if none but the start time is missing.
pub open spec fn track_info_of(parts: TrackInfoPartsModel) -> Option<TrackInfoModel> {
    if parts.handle is Some && parts.artist is Some && parts.album is Some && parts.title is Some
        && parts.sample_rate is Some && parts.sample_count is Some && parts.sample_position
        is Some {
        Some(
            TrackInfoModel {
                handle: parts.handle->Some_0,
                started_at: parts.started_at,
                artist: parts.artist->Some_0,
                album: parts.album->Some_0,
                title: parts.title->Some_0,
                sample_rate: parts.sample_rate->Some_0,
                sample_count: parts.sample_count->Some_0,
                sample_position: parts.sample_position->Some_0,
            },
        )
    } else {
        None
    }
}

/// The bytes of a struct field that holds a number.
pub open spec fn number_field(name: Seq<char>, n: u64) -> Seq<u8> {
    string_wire(name) + n.wire()
}

/// The bytes of a struct field that holds a string.
pub open spec fn text_field(name: Seq<char>, text: Seq<char>) -> Seq<u8> {
    string_wire(name) + string_wire(text)
}

/// The head of a track info's bytes: type tag, number of fields, handle.
pub open spec fn info_head(info: TrackInfoModel) -> Seq<u8> {
    be_bytes_u16(TYPE_STRUCT) + be_bytes_u32(
        if info.started_at is Some {
            8u32
        } else {
            7u32
        },
    ) + number_field("handle"@, info.handle.0)
}

/// The three strings of a track info, each under its name.
pub open spec fn info_texts(info: TrackInfoModel) -> Seq<u8> {
    text_field("artist"@, info.artist) + text_field("album"@, info.album) + text_field(
        "title"@,
        info.title,
    )
}

/// The three sample numbers of a track info, each under its name.
pub open spec fn info_samples(info: TrackInfoModel) -> Seq<u8> {
    number_field("sample_rate"@, info.sample_rate) + number_field(
        "sample_count"@,
        info.sample_count,
    ) + number_field("sample_position"@, info.sample_position)
}

/// The start time of a track info under its name, if it has one.
pub open spec fn info_start(info: TrackInfoModel) -> Seq<u8> {
    match info.started_at {
        Some(at) => number_field("started_at"@, signed_bits(at)),
        None => Seq::<u8>::empty(),
    }
}

/// The bytes that stand for a track info.
pub open spec fn track_info_wire(info: TrackInfoModel) -> Seq<u8> {
    info_head(info) + info_texts(info) + info_samples(info) + info_start(info)
}

/// A track info can be written: its strings fit.
pub open spec fn track_info_writable(info: TrackInfoModel) -> bool {
    encode_utf8(info.artist).len() <= u32::MAX && encode_utf8(info.album).len() <= u32::MAX
        && encode_utf8(info.title).len() <= u32::MAX
}

/// Appends a struct field that holds a number.
fn write_number_field(name: &str, n: u64, buf: &mut Vec<u8>)
    requires
        name@.len() <= 32,
        is_ascii_chars(name@),
    ensures
        final(buf)@ == old(buf)@ + number_field(name@, n),
{
    write_name(name, buf);
    let _ = n.write(buf);
    assert(buf@ =~= old(buf)@ + number_field(name@, n));
}

/// Appends a struct field that holds a string.
fn write_text_field(name: &str, text: &str, buf: &mut Vec<u8>)
    requires
        name@.len() <= 32,
        is_ascii_chars(name@),
        encode_utf8(text@).len() <= u32::MAX,
    ensures
        final(buf)@ == old(buf)@ + text_field(name@, text@),
{
    write_name(name, buf);
    let _ = write_str(text, buf);
    assert(buf@ =~= old(buf)@ + text_field(name@, text@));
}

/// Appends the three strings of a track info, each under its name.
fn write_texts(info: &TrackInfo, buf: &mut Vec<u8>)
    requires
        track_info_writable(info@),
    ensures
        final(buf)@ == old(buf)@ + info_texts(info@),
{
    proof {
        reveal_strlit("artist");
        reveal_strlit("album");
        reveal_strlit("title");
    }
    write_text_field("artist", info.artist.as_str(), buf);
    write_text_field("album", info.album.as_str(), buf);
    write_text_field("title", info.title.as_str(), buf);
    assert(buf@ =~= old(buf)@ + info_texts(info@));
}

/// Appends the three sample numbers of a track info, each under its name.
fn write_samples(info: &TrackInfo, buf: &mut Vec<u8>)
    ensures
        final(buf)@ == old(buf)@ + info_samples(info@),
{
    proof {
        reveal_strlit("sample_rate");
        reveal_strlit("sample_count");
        reveal_strlit("sample_position");
    }
    write_number_field("sample_rate", info.sample_rate, buf);
    write_number_field("sample_count", info.sample_count, buf);
    write_number_field("sample_position", info.sample_position, buf);
    assert(buf@ =~= old(buf)@ + info_samples(info@));
}

/// Appends the head of a track info: type tag, number of fields, handle.
fn write_info_head(info: &TrackInfo, buf: &mut Vec<u8>)
    ensures
        final(buf)@ == old(buf)@ + info_head(info@),
{
    proof {
        reveal_strlit("handle");
    }
    write_tag(buf, TYPE_STRUCT);
    write_count(buf, if info.started_at.is_some() { 8 } else { 7 });
    write_number_field("handle", info.handle.0, buf);
    assert(buf@ =~= old(buf)@ + info_head(info@));
}

/// Appends the start time of a track info under its name, if it has one.
fn write_started_at(info: &TrackInfo, buf: &mut Vec<u8>)
    ensures
        final(buf)@ == old(buf)@ + info_start(info@),
{
    proof {
        reveal_strlit("started_at");
    }
    match info.started_at {
        Some(at) => {
            write_number_field("started_at", to_signed_bits(at), buf);
        },
        None => {
            assert(buf@ =~= old(buf)@ + Seq::<u8>::empty());
        },
    }
}

/// Whether the three strings of a track info fit.
fn texts_fit(info: &TrackInfo) -> (fit: bool)
    ensures
        fit == track_info_writable(info@),
{
    info.artist.as_str().as_bytes().len() <= 0xFFFF_FFFF && info.album.as_str().as_bytes().len()
        <= 0xFFFF_FFFF && info.title.as_str().as_bytes().len() <= 0xFFFF_FFFF
}

/// Appends the bytes that stand for a track info whose strings fit.
fn write_info(info: &TrackInfo, buf: &mut Vec<u8>)
    requires
        track_info_writable(info@),
    ensures
        final(buf)@ == old(buf)@ + track_info_wire(info@),
{
    write_info_head(info, buf);
    write_texts(info, buf);
    write_samples(info, buf);
    write_started_at(info, buf);
    assert(buf@ =~= old(buf)@ + track_info_wire(info@));
}

impl Serialize for TrackInfo {
    open spec fn wire(&self) -> Seq<u8> {
        track_info_wire(self@)
    }

    open spec fn writable(&self) -> bool {
        track_info_writable(self@)
    }

    fn write(&self, buf: &mut Vec<u8>) -> (r: Result<(), ProtoError>) {
        if !texts_fit(self) {
            return Err(ProtoError::TooLong);
        }
        write_info(self, buf);
        Ok(())
    }
}

impl Deserialize for TrackInfo {
    type Model = TrackInfoModel;

    open spec fn model(&self) -> TrackInfoModel {
        self@
    }

    open spec fn parse(s: Seq<u8>) -> Result<(TrackInfoModel, nat), ProtoError> {
        match struct_spec::<TrackInfoParts>(s) {
            Err(e) => Err(e),
            Ok((parts, n)) => match track_info_of(parts) {
                None => Err(ProtoError::MissingField),
                Some(info) => Ok((info, n)),
            },
        }
    }

    fn read(buf: &mut Cursor) -> (r: Result<Self, ProtoError>) {
        let parts = read_struct::<TrackInfoParts>(buf)?;
        let TrackInfoParts {
            handle,
            started_at,
            artist,
            album,
            title,
            sample_rate,
            sample_count,
            sample_position,
        } = parts;
        match (handle, artist, album, title, sample_rate, sample_count, sample_position) {
            (
                Some(handle),
                Some(artist),
                Some(album),
                Some(title),
                Some(sample_rate),
                Some(sample_count),
                Some(sample_position),
            ) => Ok(
                TrackInfo {
                    handle,
                    started_at,
                    artist,
                    album,
                    title,
                    sample_rate,
                    sample_count,
                    sample_position,
                },
            ),
            _ => Err(ProtoError::MissingField),
        }
    }
}

/// What a queue status holds, as plain values.
pub struct QueueModel {
    pub upcoming: Seq<TrackInfoModel>,
    pub history: Seq<TrackInfoModel>,
}

/// The fields of a queue status, as far as read.
pub struct QueueParts {
    pub upcoming: Option<Vec<TrackInfo>>,
    pub history: Option<Vec<TrackInfo>>,
}

/// The fields of a queue status, as plain values.
pub struct QueuePartsModel {
    pub upcoming: Option<Seq<TrackInfoModel>>,
    pub history: Option<Seq<TrackInfoModel>>,
}

/// What a list of track infos that may be there holds.
pub open spec fn list_model(list: Option<Vec<TrackInfo>>) -> Option<Seq<TrackInfoModel>> {
    match list {
        Some(list) => Some(infos_model(list@)),
        None => None,
    }
}

impl FieldSink for QueueParts {
    type Parts = QueuePartsModel;

    open spec fn parts(&self) -> QueuePartsModel {
        QueuePartsModel { upcoming: list_model(self.upcoming), history: list_model(self.history) }
    }

    open spec fn start() -> QueuePartsModel {
        QueuePartsModel { upcoming: None, history: None }
    }

    open spec fn field(parts: QueuePartsModel, name: Seq<char>, v: Seq<u8>) -> Result<
        (QueuePartsModel, nat),
        ProtoError,
    > {
        if name == "upcoming"@ {
            match Vec::<TrackInfo>::parse(v) {
                Err(e) => Err(e),
                Ok((list, n)) => Ok((QueuePartsModel { upcoming: Some(list), ..parts }, n)),
            }
        } else if name == "history"@ {
            match Vec::<TrackInfo>::parse(v) {
                Err(e) => Err(e),
                Ok((list, n)) => Ok((QueuePartsModel { history: Some(list), ..parts }, n)),
            }
        } else {
            skipped(parts, v)
        }
    }

    fn empty() -> (sink: Self) {
        QueueParts { upcoming: None, history: None }
    }

    fn accept(&mut self, name: &str, buf: &mut Cursor) -> (r: Result<(), ProtoError>) {
        if str_eq(name, "upcoming") {
            let list = Vec::<TrackInfo>::read(buf)?;
            assert(infos_model(list@) =~= list.model());
            self.upcoming = Some(list);
        } else if str_eq(name, "history") {
            let list = Vec::<TrackInfo>::read(buf)?;
            assert(infos_model(list@) =~= list.model());
            self.history = Some(list);
        } else {
            skip_entity(buf)?;
        }
        Ok(())
    }
}

impl Serialize for Queue {
    open spec fn wire(&self) -> Seq<u8> {
        be_bytes_u16(TYPE_STRUCT) + be_bytes_u32(2) + string_wire("upcoming"@)
            + self.upcoming.wire() + string_wire("history"@) + self.history.wire()
    }

    open spec fn writable(&self) -> bool {
        self.upcoming.writable() && self.history.writable()
    }

    fn write(&self, buf: &mut Vec<u8>) -> (r: Result<(), ProtoError>) {
        let mut out: Vec<u8> = Vec::new();
        write_tag(&mut out, TYPE_STRUCT);
        write_count(&mut out, 2);
        write_upcoming(&self.upcoming, &mut out)?;
        write_history(&self.history, &mut out)?;
        assert(out@ =~= self.wire());
        append_bytes(buf, out.as_slice());
        Ok(())
    }
}

/// Appends the waiting tracks of a queue status under their name.
fn write_upcoming(list: &Vec<TrackInfo>, buf: &mut Vec<u8>) -> (r: Result<(), ProtoError>)
    ensures
        match r {
            Ok(_) => list.writable() && final(buf)@ == old(buf)@ + string_wire("upcoming"@)
                + list.wire(),
            Err(e) => !list.writable() && e == ProtoError::TooLong,
        },
{
    proof {
        reveal_strlit("upcoming");
    }
    write_name("upcoming", buf);
    list.write(buf)
}

/// Appends the played tracks of a queue status under their name.
fn write_history(list: &Vec<TrackInfo>, buf: &mut Vec<u8>) -> (r: Result<(), ProtoError>)
    ensures
        match r {
            Ok(_) => list.writable() && final(buf)@ == old(buf)@ + string_wire("history"@)
                + list.wire(),
            Err(e) => !list.writable() && e == ProtoError::TooLong,
        },
{
    proof {
        reveal_strlit("history");
    }
    write_name("history", buf);
    list.write(buf)
}

impl Deserialize for Queue {
    type Model = QueueModel;

    open spec fn model(&self) -> QueueModel {
        QueueModel { upcoming: infos_model(self.upcoming@), history: infos_model(self.history@) }
    }

    open spec fn parse(s: Seq<u8>) -> Result<(QueueModel, nat), ProtoError> {
        match struct_spec::<QueueParts>(s) {
            Err(e) => Err(e),
            Ok((parts, n)) => match parts.upcoming {
                None => Err(ProtoError::MissingField),
                Some(upcoming) => Ok(
                    (
                        QueueModel {
                            upcoming,
                            history: match parts.history {
                                Some(history) => history,
                                None => Seq::<TrackInfoModel>::empty(),
                            },
                        },
                        n,
                    ),
                ),
            },
        }
    }

    fn read(buf: &mut Cursor) -> (r: Result<Self, ProtoError>) {
        let parts = read_struct::<QueueParts>(buf)?;
        let QueueParts { upcoming, history } = parts;
        let upcoming = match upcoming {
            Some(upcoming) => upcoming,
            None => {
                return Err(ProtoError::MissingField);
            },
        };
        let history = match history {
            Some(history) => history,
            None => {
                let empty: Vec<TrackInfo> = Vec::new();
                assert(infos_model(empty@) =~= Seq::<TrackInfoModel>::empty());
                empty
            },
        };
        Ok(Queue { upcoming, history })
    }
}

} // verus!

verus! {

/// One more field read: a field whose value reads as the sink says is the
/// next step of reading the struct.
pub proof fn lemma_step<S: FieldSink>(
    s: Seq<u8>,
    k: nat,
    parts: S::Parts,
    at: nat,
    name: Seq<char>,
    value: Seq<u8>,
    tail: Seq<u8>,
    next: S::Parts,
)
    requires
        fields::<S>(s, 6, k) == Ok::<(S::Parts, nat), ProtoError>((parts, at)),
        at <= s.len(),
        s.skip(at as int) == string_wire(name) + value + tail,
        encode_utf8(name).len() <= u32::MAX,
        S::field(parts, name, value + tail) == Ok::<(S::Parts, nat), ProtoError>(
            (next, value.len()),
        ),
    ensures
        fields::<S>(s, 6, k + 1) == Ok::<(S::Parts, nat), ProtoError>(
            (next, at + string_wire(name).len() + value.len()),
        ),
        at + string_wire(name).len() + value.len() <= s.len(),
        s.skip((at + string_wire(name).len() + value.len()) as int) == tail,
{
    reveal(fields);
    reveal(one_field);
    let field = s.skip(at as int);
    let label = string_wire(name);
    assert(field =~= label + (value + tail));
    crate::proto::lemma_string_round_trip(name, value + tail);
    assert(field.skip(label.len() as int) =~= value + tail);
    assert(field.len() == label.len() + value.len() + tail.len());
    assert(field.skip((label.len() + value.len()) as int) =~= tail);
    assert(s.skip(at as int).skip((label.len() + value.len()) as int) =~= s.skip(
        (at + label.len() + value.len()) as int,
    ));
}

/// Passing over a field passes over its name and its value.
pub proof fn lemma_skip_field(name: Seq<char>, value: Seq<u8>, tail: Seq<u8>, more: nat, m: nat)
    requires
        encode_utf8(name).len() <= u32::MAX,
        skip_spec(value + tail) == Ok::<nat, ProtoError>(value.len()),
        crate::proto::skip_many(tail, more) == Ok::<nat, ProtoError>(m),
    ensures
        crate::proto::skip_many(string_wire(name) + value + tail, more + 2) == Ok::<
            nat,
            ProtoError,
        >(string_wire(name).len() + value.len() + m),
{
    reveal(skip_spec);
    reveal(crate::proto::skip_many);
    let label = string_wire(name);
    let s = label + value + tail;
    assert(s =~= label + (value + tail));
    crate::proto::lemma_string_round_trip(name, value + tail);
    crate::proto::lemma_skip_bounds(value + tail);
    assert(s.skip(label.len() as int) =~= value + tail);
    assert((value + tail).skip(value.len() as int) =~= tail);
    assert(crate::proto::skip_many(value + tail, more + 1) == Ok::<nat, ProtoError>(
        value.len() + m,
    ));
}

/// The struct without fields reads back, and is passed over, as its six
/// bytes.
pub proof fn lemma_empty_struct(rest: Seq<u8>)
    ensures
        empty_struct_spec(empty_struct_wire() + rest) == Ok::<nat, ProtoError>(6nat),
        skip_spec(empty_struct_wire() + rest) == Ok::<nat, ProtoError>(6nat),
        empty_struct_wire().len() == 6,
{
    reveal(skip_spec);
    reveal(crate::proto::skip_many);
    crate::proto::lemma_header(TYPE_STRUCT, 0, rest);
    assert(crate::proto::skip_many(rest, 0) == Ok::<nat, ProtoError>(0nat));
}

/// Before any field is read, nothing is read.
pub proof fn lemma_fields_start<S: FieldSink>(s: Seq<u8>)
    ensures
        fields::<S>(s, 6, 0) == Ok::<(S::Parts, nat), ProtoError>((S::start(), 6nat)),
{
    reveal(fields);
}

/// Passing over a struct passes over its head and its fields.
pub proof fn lemma_skip_struct(count: u32, body: Seq<u8>, k: nat)
    requires
        crate::proto::skip_many(body, 2 * (count as nat)) == Ok::<nat, ProtoError>(k),
    ensures
        skip_spec(be_bytes_u16(TYPE_STRUCT) + be_bytes_u32(count) + body) == Ok::<
            nat,
            ProtoError,
        >(6 + k),
{
    reveal(skip_spec);
    reveal(crate::proto::skip_many);
    crate::proto::lemma_header(TYPE_STRUCT, count, body);
}

/// Passing over no value passes over nothing.
pub proof fn lemma_skip_none(rest: Seq<u8>)
    ensures
        crate::proto::skip_many(rest, 0) == Ok::<nat, ProtoError>(0nat),
{
    reveal(skip_spec);
    reveal(crate::proto::skip_many);
}

impl RoundTrip for Handle {
    proof fn lemma_round_trip(&self, rest: Seq<u8>) {
        self.0.lemma_round_trip(rest);
    }
}

impl RoundTrip for EnqueueTrackError {
    proof fn lemma_round_trip(&self, rest: Seq<u8>) {
        self.code().lemma_round_trip(rest);
    }
}

impl RoundTrip for ReplaceFallbackError {
    proof fn lemma_round_trip(&self, rest: Seq<u8>) {
        self.code().lemma_round_trip(rest);
    }
}

impl RoundTrip for FastForward {
    proof fn lemma_round_trip(&self, rest: Seq<u8>) {
        self.code().lemma_round_trip(rest);
    }
}

impl RoundTrip for FastForwardError {
    proof fn lemma_round_trip(&self, rest: Seq<u8>) {
        lemma_empty_struct(rest);
    }
}

impl RoundTrip for StatusError {
    proof fn lemma_round_trip(&self, rest: Seq<u8>) {
        lemma_empty_struct(rest);
    }
}

impl RoundTrip for StatusRequest {
    proof fn lemma_round_trip(&self, rest: Seq<u8>) {
        lemma_empty_struct(rest);
    }
}

/// The name of a field is short.
proof fn lemma_short_name(name: Seq<char>)
    requires
        name.len() <= 32,
        is_ascii_chars(name),
    ensures
        encode_utf8(name).len() <= u32::MAX,
{
    is_ascii_chars_encode_utf8(name);
}

/// The names of the fields of requests are short and differ.
proof fn lemma_request_names()
    ensures
        encode_utf8("kind"@).len() <= u32::MAX,
        encode_utf8("track"@).len() <= u32::MAX,
        encode_utf8("metadata"@).len() <= u32::MAX,
        "metadata"@ != "track"@,
{
    reveal_strlit("kind");
    reveal_strlit("track");
    reveal_strlit("metadata");
    lemma_short_name("kind"@);
    lemma_short_name("track"@);
    lemma_short_name("metadata"@);
    assert("metadata"@.len() != "track"@.len());
}

impl RoundTrip for FastForwardRequest {
    proof fn lemma_round_trip(&self, rest: Seq<u8>) {
        lemma_request_names();
        let value = self.kind.wire();
        let body = string_wire("kind"@) + value + rest;
        let s = self.wire() + rest;
        assert(s =~= be_bytes_u16(TYPE_STRUCT) + be_bytes_u32(1) + body);
        crate::proto::lemma_header(TYPE_STRUCT, 1, body);
        self.kind.lemma_round_trip(rest);
        lemma_fields_start::<FastForwardParts>(s);
        lemma_step::<FastForwardParts>(s, 0, None, 6, "kind"@, value, rest, Some(self.kind));
        lemma_skip_none(rest);
        lemma_skip_field("kind"@, value, rest, 0, 0);
        lemma_skip_struct(1, body, string_wire("kind"@).len() + value.len());
        assert(self.wire().len() == 6 + string_wire("kind"@).len() + value.len());
    }
}

/// What reading the track of a request gives.
proof fn lemma_track_field(parts: TrackRequestPartsModel, track: Seq<u8>, tail: Seq<u8>)
    requires
        track.len() <= u32::MAX,
    ensures
        TrackRequestParts::field(parts, "track"@, blob_wire(track) + tail) == Ok::<
            (TrackRequestPartsModel, nat),
            ProtoError,
        >((TrackRequestPartsModel { track: Some(track), ..parts }, blob_wire(track).len())),
        skip_spec(blob_wire(track) + tail) == Ok::<nat, ProtoError>(blob_wire(track).len()),
{
    crate::proto::lemma_blob_round_trip(track, tail);
}

/// What reading the comments of a request gives.
proof fn lemma_metadata_field(
    parts: TrackRequestPartsModel,
    list: Vec<(String, String)>,
    tail: Seq<u8>,
)
    requires
        list.writable(),
    ensures
        TrackRequestParts::field(parts, "metadata"@, list.wire() + tail) == Ok::<
            (TrackRequestPartsModel, nat),
            ProtoError,
        >(
            (
                TrackRequestPartsModel { metadata: Some(pairs_model(list@)), ..parts },
                list.wire().len(),
            ),
        ),
        skip_spec(list.wire() + tail) == Ok::<nat, ProtoError>(list.wire().len()),
{
    lemma_request_names();
    list.lemma_round_trip(tail);
    assert(pairs_model(list@) =~= list.model());
}

/// The bytes of a request that carries a track and no comments read back
/// as the request.
proof fn lemma_track_request_bare(track: Seq<u8>, rest: Seq<u8>)
    requires
        track.len() <= u32::MAX,
    ensures
        track_request(track_request_wire(track, None) + rest) == Ok::<
            (TrackRequestModel, nat),
            ProtoError,
        >((TrackRequestModel { track, metadata: None }, track_request_wire(track, None).len())),
        skip_spec(track_request_wire(track, None) + rest) == Ok::<nat, ProtoError>(
            track_request_wire(track, None).len(),
        ),
{
    lemma_request_names();
    let blob = blob_wire(track);
    let s = track_request_wire(track, None) + rest;
    let start = TrackRequestParts::start();
    let first = TrackRequestPartsModel { track: Some(track), ..start };
    let body = string_wire("track"@) + blob + rest;
    assert(s =~= be_bytes_u16(TYPE_STRUCT) + be_bytes_u32(1) + body);
    crate::proto::lemma_header(TYPE_STRUCT, 1, body);
    lemma_track_field(start, track, rest);
    lemma_fields_start::<TrackRequestParts>(s);
    lemma_step::<TrackRequestParts>(s, 0, start, 6, "track"@, blob, rest, first);
    lemma_skip_none(rest);
    lemma_skip_field("track"@, blob, rest, 0, 0);
    lemma_skip_struct(1, body, string_wire("track"@).len() + blob.len());
    assert(track_request_wire(track, None).len() == 6 + string_wire("track"@).len() + blob.len());
}

/// The bytes of a request that carries a track and comments read back as
/// the request.
proof fn lemma_track_request_full(track: Seq<u8>, list: Vec<(String, String)>, rest: Seq<u8>)
    requires
        track.len() <= u32::MAX,
        list.writable(),
    ensures
        track_request(track_request_wire(track, Some(list)) + rest) == Ok::<
            (TrackRequestModel, nat),
            ProtoError,
        >(
            (
                TrackRequestModel { track, metadata: Some(pairs_model(list@)) },
                track_request_wire(track, Some(list)).len(),
            ),
        ),
        skip_spec(track_request_wire(track, Some(list)) + rest) == Ok::<nat, ProtoError>(
            track_request_wire(track, Some(list)).len(),
        ),
{
    lemma_request_names();
    let blob = blob_wire(track);
    let value = list.wire();
    let s = track_request_wire(track, Some(list)) + rest;
    let start = TrackRequestParts::start();
    let first = TrackRequestPartsModel { track: Some(track), ..start };
    let both = TrackRequestPartsModel { metadata: Some(pairs_model(list@)), ..first };
    let second = string_wire("metadata"@) + value + rest;
    let body = string_wire("track"@) + blob + second;
    assert(s =~= be_bytes_u16(TYPE_STRUCT) + be_bytes_u32(2) + body);
    crate::proto::lemma_header(TYPE_STRUCT, 2, body);
    lemma_track_field(start, track, second);
    lemma_metadata_field(first, list, rest);
    lemma_fields_start::<TrackRequestParts>(s);
    lemma_step::<TrackRequestParts>(s, 0, start, 6, "track"@, blob, second, first);
    let at = (6 + string_wire("track"@).len() + blob.len()) as nat;
    lemma_step::<TrackRequestParts>(s, 1, first, at, "metadata"@, value, rest, both);
    lemma_skip_none(rest);
    lemma_skip_field("metadata"@, value, rest, 0, 0);
    lemma_skip_field("track"@, blob, second, 2, string_wire("metadata"@).len() + value.len());
    lemma_skip_struct(
        2,
        body,
        string_wire("track"@).len() + blob.len() + string_wire("metadata"@).len() + value.len(),
    );
    assert(track_request_wire(track, Some(list)).len() == at + string_wire("metadata"@).len()
        + value.len());
}

/// The bytes of a request that carries a track read back as the request.
pub proof fn lemma_track_request(
    track: Seq<u8>,
    metadata: Option<Vec<(String, String)>>,
    rest: Seq<u8>,
)
    requires
        track_request_writable(track, metadata),
    ensures
        track_request(track_request_wire(track, metadata) + rest) == Ok::<
            (TrackRequestModel, nat),
            ProtoError,
        >(
            (
                TrackRequestModel {
                    track,
                    metadata: match metadata {
                        Some(list) => Some(pairs_model(list@)),
                        None => None,
                    },
                },
                track_request_wire(track, metadata).len(),
            ),
        ),
        skip_spec(track_request_wire(track, metadata) + rest) == Ok::<nat, ProtoError>(
            track_request_wire(track, metadata).len(),
        ),
{
    match metadata {
        Some(list) => {
            lemma_track_request_full(track, list, rest);
        },
        None => {
            lemma_track_request_bare(track, rest);
        },
    }
}

impl RoundTrip for EnqueueTrackRequest {
    proof fn lemma_round_trip(&self, rest: Seq<u8>) {
        lemma_track_request(self.track@, self.metadata, rest);
    }
}

impl RoundTrip for ReplaceFallbackRequest {
    proof fn lemma_round_trip(&self, rest: Seq<u8>) {
        lemma_track_request(self.track@, self.metadata, rest);
    }
}

} // verus!

verus! {

/// The names of the fields of a track info are short.
proof fn lemma_info_names_short()
    ensures
        encode_utf8("handle"@).len() <= u32::MAX,
        encode_utf8("started_at"@).len() <= u32::MAX,
        encode_utf8("artist"@).len() <= u32::MAX,
        encode_utf8("album"@).len() <= u32::MAX,
        encode_utf8("title"@).len() <= u32::MAX,
        encode_utf8("sample_rate"@).len() <= u32::MAX,
        encode_utf8("sample_count"@).len() <= u32::MAX,
        encode_utf8("sample_position"@).len() <= u32::MAX,
{
    reveal_strlit("handle");
    reveal_strlit("started_at");
    reveal_strlit("artist");
    reveal_strlit("album");
    reveal_strlit("title");
    reveal_strlit("sample_rate");
    reveal_strlit("sample_count");
    reveal_strlit("sample_position");
    lemma_short_name("handle"@);
    lemma_short_name("started_at"@);
    lemma_short_name("artist"@);
    lemma_short_name("album"@);
    lemma_short_name("title"@);
    lemma_short_name("sample_rate"@);
    lemma_short_name("sample_count"@);
    lemma_short_name("sample_position"@);
}

/// The names of the fields of a track info differ.
proof fn lemma_info_names_differ()
    ensures
        "started_at"@ != "handle"@,
        "artist"@ != "handle"@ && "artist"@ != "started_at"@,
        "album"@ != "handle"@ && "album"@ != "started_at"@ && "album"@ != "artist"@,
        "title"@ != "handle"@ && "title"@ != "started_at"@ && "title"@ != "artist"@ && "title"@
            != "album"@,
        "sample_rate"@ != "handle"@ && "sample_rate"@ != "started_at"@ && "sample_rate"@
            != "artist"@ && "sample_rate"@ != "album"@ && "sample_rate"@ != "title"@,
        "sample_count"@ != "handle"@ && "sample_count"@ != "started_at"@ && "sample_count"@
            != "artist"@ && "sample_count"@ != "album"@ && "sample_count"@ != "title"@
            && "sample_count"@ != "sample_rate"@,
        "sample_position"@ != "handle"@ && "sample_position"@ != "started_at"@
            && "sample_position"@ != "artist"@ && "sample_position"@ != "album"@
            && "sample_position"@ != "title"@ && "sample_position"@ != "sample_rate"@
            && "sample_position"@ != "sample_count"@,
{
    reveal_strlit("handle");
    reveal_strlit("started_at");
    reveal_strlit("artist");
    reveal_strlit("album");
    reveal_strlit("title");
    reveal_strlit("sample_rate");
    reveal_strlit("sample_count");
    reveal_strlit("sample_position");
    assert("handle"@.len() == 6 && "started_at"@.len() == 10 && "artist"@.len() == 6);
    assert("album"@.len() == 5 && "title"@.len() == 5 && "sample_rate"@.len() == 11);
    assert("sample_count"@.len() == 12 && "sample_position"@.len() == 15);
    assert("artist"@[0] != "handle"@[0]);
    assert("title"@[0] != "album"@[0]);
}

/// What reading the handle of a track info gives.
proof fn lemma_field_handle(parts: TrackInfoPartsModel, n: u64, tail: Seq<u8>)
    ensures
        TrackInfoParts::field(parts, "handle"@, n.wire() + tail) == Ok::<
            (TrackInfoPartsModel, nat),
            ProtoError,
        >((TrackInfoPartsModel { handle: Some(Handle(n)), ..parts }, n.wire().len())),
        skip_spec(n.wire() + tail) == Ok::<nat, ProtoError>(n.wire().len()),
{
    n.lemma_round_trip(tail);
}

/// What reading the start time of a track info gives.
proof fn lemma_field_started_at(parts: TrackInfoPartsModel, at: i64, tail: Seq<u8>)
    ensures
        TrackInfoParts::field(parts, "started_at"@, signed_bits(at).wire() + tail) == Ok::<
            (TrackInfoPartsModel, nat),
            ProtoError,
        >((TrackInfoPartsModel { started_at: Some(at), ..parts }, signed_bits(at).wire().len())),
        skip_spec(signed_bits(at).wire() + tail) == Ok::<nat, ProtoError>(
            signed_bits(at).wire().len(),
        ),
{
    lemma_info_names_differ();
    signed_bits(at).lemma_round_trip(tail);
}

/// What reading the artist of a track info gives.
proof fn lemma_field_artist(parts: TrackInfoPartsModel, text: Seq<char>, tail: Seq<u8>)
    requires
        encode_utf8(text).len() <= u32::MAX,
    ensures
        TrackInfoParts::field(parts, "artist"@, string_wire(text) + tail) == Ok::<
            (TrackInfoPartsModel, nat),
            ProtoError,
        >((TrackInfoPartsModel { artist: Some(text), ..parts }, string_wire(text).len())),
        skip_spec(string_wire(text) + tail) == Ok::<nat, ProtoError>(string_wire(text).len()),
{
    lemma_info_names_differ();
    crate::proto::lemma_string_round_trip(text, tail);
}

/// What reading the album of a track info gives.
proof fn lemma_field_album(parts: TrackInfoPartsModel, text: Seq<char>, tail: Seq<u8>)
    requires
        encode_utf8(text).len() <= u32::MAX,
    ensures
        TrackInfoParts::field(parts, "album"@, string_wire(text) + tail) == Ok::<
            (TrackInfoPartsModel, nat),
            ProtoError,
        >((TrackInfoPartsModel { album: Some(text), ..parts }, string_wire(text).len())),
        skip_spec(string_wire(text) + tail) == Ok::<nat, ProtoError>(string_wire(text).len()),
{
    lemma_info_names_differ();
    crate::proto::lemma_string_round_trip(text, tail);
}

/// What reading the title of a track info gives.
proof fn lemma_field_title(parts: TrackInfoPartsModel, text: Seq<char>, tail: Seq<u8>)
    requires
        encode_utf8(text).len() <= u32::MAX,
    ensures
        TrackInfoParts::field(parts, "title"@, string_wire(text) + tail) == Ok::<
            (TrackInfoPartsModel, nat),
            ProtoError,
        >((TrackInfoPartsModel { title: Some(text), ..parts }, string_wire(text).len())),
        skip_spec(string_wire(text) + tail) == Ok::<nat, ProtoError>(string_wire(text).len()),
{
    lemma_info_names_differ();
    crate::proto::lemma_string_round_trip(text, tail);
}

/// What reading the sample rate of a track info gives.
proof fn lemma_field_sample_rate(parts: TrackInfoPartsModel, n: u64, tail: Seq<u8>)
    ensures
        TrackInfoParts::field(parts, "sample_rate"@, n.wire() + tail) == Ok::<
            (TrackInfoPartsModel, nat),
            ProtoError,
        >((TrackInfoPartsModel { sample_rate: Some(n), ..parts }, n.wire().len())),
        skip_spec(n.wire() + tail) == Ok::<nat, ProtoError>(n.wire().len()),
{
    lemma_info_names_differ();
    n.lemma_round_trip(tail);
}

/// What reading the sample count of a track info gives.
proof fn lemma_field_sample_count(parts: TrackInfoPartsModel, n: u64, tail: Seq<u8>)
    ensures
        TrackInfoParts::field(parts, "sample_count"@, n.wire() + tail) == Ok::<
            (TrackInfoPartsModel, nat),
            ProtoError,
        >((TrackInfoPartsModel { sample_count: Some(n), ..parts }, n.wire().len())),
        skip_spec(n.wire() + tail) == Ok::<nat, ProtoError>(n.wire().len()),
{
    lemma_info_names_differ();
    n.lemma_round_trip(tail);
}

/// What reading the sample position of a track info gives.
proof fn lemma_field_sample_position(parts: TrackInfoPartsModel, n: u64, tail: Seq<u8>)
    ensures
        TrackInfoParts::field(parts, "sample_position"@, n.wire() + tail) == Ok::<
            (TrackInfoPartsModel, nat),
            ProtoError,
        >((TrackInfoPartsModel { sample_position: Some(n), ..parts }, n.wire().len())),
        skip_spec(n.wire() + tail) == Ok::<nat, ProtoError>(n.wire().len()),
{
    lemma_info_names_differ();
    n.lemma_round_trip(tail);
}

/// The last field of a track info's bytes, if it has a start time, with
/// bytes behind it.
pub open spec fn info_tail(info: TrackInfoModel, rest: Seq<u8>) -> Seq<u8> {
    match info.started_at {
        Some(at) => string_wire("started_at"@) + signed_bits(at).wire() + rest,
        None => rest,
    }
}

/// The sample numbers of a track info's bytes, with bytes behind them.
pub open spec fn info_samples_then(info: TrackInfoModel, tail: Seq<u8>) -> Seq<u8> {
    string_wire("sample_rate"@) + info.sample_rate.wire() + (string_wire("sample_count"@)
        + info.sample_count.wire() + (string_wire("sample_position"@) + info.sample_position.wire()
        + tail))
}

/// The strings of a track info's bytes, with bytes behind them.
pub open spec fn info_texts_then(info: TrackInfoModel, tail: Seq<u8>) -> Seq<u8> {
    string_wire("artist"@) + string_wire(info.artist) + (string_wire("album"@) + string_wire(
        info.album,
    ) + (string_wire("title"@) + string_wire(info.title) + tail))
}

/// The fields of a track info's bytes, with bytes behind them.
pub open spec fn info_body(info: TrackInfoModel, rest: Seq<u8>) -> Seq<u8> {
    string_wire("handle"@) + info.handle.0.wire() + info_texts_then(
        info,
        info_samples_then(info, info_tail(info, rest)),
    )
}

/// Byte strings laid end to end can be grouped from the right.
proof fn lemma_regroup(a: Seq<u8>, b: Seq<u8>, c: Seq<u8>, d: Seq<u8>)
    ensures
        a + b + c + d == a + (b + (c + d)),
{
    assert(a + b + c + d =~= a + (b + (c + d)));
}

/// The strings of a track info's bytes, with bytes behind them.
proof fn lemma_info_texts_then(info: TrackInfoModel, tail: Seq<u8>)
    ensures
        info_texts(info) + tail == info_texts_then(info, tail),
{
    lemma_regroup(
        text_field("artist"@, info.artist),
        text_field("album"@, info.album),
        text_field("title"@, info.title),
        tail,
    );
}

/// The sample numbers of a track info's bytes, with bytes behind them.
proof fn lemma_info_samples_then(info: TrackInfoModel, tail: Seq<u8>)
    ensures
        info_samples(info) + tail == info_samples_then(info, tail),
{
    lemma_regroup(
        number_field("sample_rate"@, info.sample_rate),
        number_field("sample_count"@, info.sample_count),
        number_field("sample_position"@, info.sample_position),
        tail,
    );
}

/// The start time of a track info's bytes, with bytes behind it.
proof fn lemma_info_tail(info: TrackInfoModel, rest: Seq<u8>)
    ensures
        info_start(info) + rest == info_tail(info, rest),
{
    if info.started_at is None {
        assert(Seq::<u8>::empty() + rest =~= rest);
    }
}

/// The head of a track info's bytes, with bytes behind it.
proof fn lemma_info_head_then(info: TrackInfoModel, tail: Seq<u8>)
    ensures
        info_head(info) + tail == be_bytes_u16(TYPE_STRUCT) + be_bytes_u32(
            if info.started_at is Some {
                8u32
            } else {
                7u32
            },
        ) + (string_wire("handle"@) + info.handle.0.wire() + tail),
        (info_head(info) + tail).len() == 6 + (string_wire("handle"@) + info.handle.0.wire()
            + tail).len(),
{
    let count = be_bytes_u32(
        if info.started_at is Some {
            8u32
        } else {
            7u32
        },
    );
    lemma_regroup(
        be_bytes_u16(TYPE_STRUCT) + count,
        number_field("handle"@, info.handle.0),
        tail,
        Seq::<u8>::empty(),
    );
    assert(tail + Seq::<u8>::empty() =~= tail);
    assert(info_head(info) + tail + Seq::<u8>::empty() =~= info_head(info) + tail);
}

/// The bytes of a track info with bytes behind them are its head, its
/// fields one behind the other, and those bytes.
proof fn lemma_info_nested(info: TrackInfoModel, rest: Seq<u8>)
    ensures
        track_info_wire(info) + rest == be_bytes_u16(TYPE_STRUCT) + be_bytes_u32(
            if info.started_at is Some {
                8u32
            } else {
                7u32
            },
        ) + info_body(info, rest),
        track_info_wire(info).len() + rest.len() == 6 + info_body(info, rest).len(),
{
    let tail = info_tail(info, rest);
    let samples = info_samples_then(info, tail);
    let texts = info_texts_then(info, samples);
    lemma_info_tail(info, rest);
    lemma_info_samples_then(info, tail);
    lemma_info_texts_then(info, samples);
    lemma_regroup(info_head(info) + info_texts(info), info_samples(info), info_start(info), rest);
    lemma_regroup(info_head(info), info_texts(info), samples, Seq::<u8>::empty());
    assert(samples + Seq::<u8>::empty() =~= samples);
    assert(info_head(info) + info_texts(info) + samples + Seq::<u8>::empty() =~= info_head(info)
        + info_texts(info) + samples);
    lemma_info_head_then(info, texts);
}

/// The fields of a track info that has been read up to its sample
/// numbers.
pub open spec fn info_parts(info: TrackInfoModel, started_at: Option<i64>) -> TrackInfoPartsModel {
    TrackInfoPartsModel {
        handle: Some(info.handle),
        started_at,
        artist: Some(info.artist),
        album: Some(info.album),
        title: Some(info.title),
        sample_rate: Some(info.sample_rate),
        sample_count: Some(info.sample_count),
        sample_position: Some(info.sample_position),
    }
}

/// The first four fields of a track info read back.
proof fn lemma_info_first_fields(s: Seq<u8>, info: TrackInfoModel, tail: Seq<u8>)
    requires
        track_info_writable(info),
        s.len() >= 6,
        s.skip(6) == string_wire("handle"@) + info.handle.0.wire() + info_texts_then(info, tail),
    ensures
        fields::<TrackInfoParts>(s, 6, 4) == Ok::<(TrackInfoPartsModel, nat), ProtoError>(
            (
                TrackInfoPartsModel {
                    handle: Some(info.handle),
                    artist: Some(info.artist),
                    album: Some(info.album),
                    title: Some(info.title),
                    ..TrackInfoParts::start()
                },
                (s.len() - tail.len()) as nat,
            ),
        ),
        tail.len() <= s.len(),
        s.skip(s.len() - tail.len()) == tail,
{
    lemma_info_names_short();
    let p0 = TrackInfoParts::start();
    let p1 = TrackInfoPartsModel { handle: Some(info.handle), ..p0 };
    let p2 = TrackInfoPartsModel { artist: Some(info.artist), ..p1 };
    let p3 = TrackInfoPartsModel { album: Some(info.album), ..p2 };
    let p4 = TrackInfoPartsModel { title: Some(info.title), ..p3 };
    let t3 = string_wire("title"@) + string_wire(info.title) + tail;
    let t2 = string_wire("album"@) + string_wire(info.album) + t3;
    let t1 = string_wire("artist"@) + string_wire(info.artist) + t2;
    let v0 = info.handle.0.wire();
    let a0 = 6nat;
    lemma_fields_start::<TrackInfoParts>(s);
    lemma_field_handle(p0, info.handle.0, t1);
    lemma_step::<TrackInfoParts>(s, 0, p0, a0, "handle"@, v0, t1, p1);
    let a1 = (a0 + string_wire("handle"@).len() + v0.len()) as nat;
    lemma_field_artist(p1, info.artist, t2);
    lemma_step::<TrackInfoParts>(s, 1, p1, a1, "artist"@, string_wire(info.artist), t2, p2);
    let a2 = (a1 + string_wire("artist"@).len() + string_wire(info.artist).len()) as nat;
    lemma_field_album(p2, info.album, t3);
    lemma_step::<TrackInfoParts>(s, 2, p2, a2, "album"@, string_wire(info.album), t3, p3);
    let a3 = (a2 + string_wire("album"@).len() + string_wire(info.album).len()) as nat;
    lemma_field_title(p3, info.title, tail);
    lemma_step::<TrackInfoParts>(s, 3, p3, a3, "title"@, string_wire(info.title), tail, p4);
    let a4 = (a3 + string_wire("title"@).len() + string_wire(info.title).len()) as nat;
    assert(s.len() == a4 + tail.len()) by {
        assert(s.skip(a4 as int).len() == tail.len());
    }
}

/// The sample numbers of a track info read back.
proof fn lemma_info_sample_fields(
    s: Seq<u8>,
    info: TrackInfoModel,
    before: TrackInfoPartsModel,
    at: nat,
    tail: Seq<u8>,
)
    requires
        fields::<TrackInfoParts>(s, 6, 4) == Ok::<(TrackInfoPartsModel, nat), ProtoError>(
            (before, at),
        ),
        at <= s.len(),
        s.skip(at as int) == info_samples_then(info, tail),
    ensures
        fields::<TrackInfoParts>(s, 6, 7) == Ok::<(TrackInfoPartsModel, nat), ProtoError>(
            (
                TrackInfoPartsModel {
                    sample_rate: Some(info.sample_rate),
                    sample_count: Some(info.sample_count),
                    sample_position: Some(info.sample_position),
                    ..before
                },
                (s.len() - tail.len()) as nat,
            ),
        ),
        tail.len() <= s.len(),
        s.skip(s.len() - tail.len()) == tail,
{
    lemma_info_names_short();
    let p5 = TrackInfoPartsModel { sample_rate: Some(info.sample_rate), ..before };
    let p6 = TrackInfoPartsModel { sample_count: Some(info.sample_count), ..p5 };
    let p7 = TrackInfoPartsModel { sample_position: Some(info.sample_position), ..p6 };
    let t6 = string_wire("sample_position"@) + info.sample_position.wire() + tail;
    let t5 = string_wire("sample_count"@) + info.sample_count.wire() + t6;
    lemma_field_sample_rate(before, info.sample_rate, t5);
    lemma_step::<TrackInfoParts>(
        s,
        4,
        before,
        at,
        "sample_rate"@,
        info.sample_rate.wire(),
        t5,
        p5,
    );
    let a5 = (at + string_wire("sample_rate"@).len() + info.sample_rate.wire().len()) as nat;
    lemma_field_sample_count(p5, info.sample_count, t6);
    lemma_step::<TrackInfoParts>(s, 5, p5, a5, "sample_count"@, info.sample_count.wire(), t6, p6);
    let a6 = (a5 + string_wire("sample_count"@).len() + info.sample_count.wire().len()) as nat;
    lemma_field_sample_position(p6, info.sample_position, tail);
    lemma_step::<TrackInfoParts>(
        s,
        6,
        p6,
        a6,
        "sample_position"@,
        info.sample_position.wire(),
        tail,
        p7,
    );
    let a7 = (a6 + string_wire("sample_position"@).len() + info.sample_position.wire().len()) as nat;
    assert(s.len() == a7 + tail.len()) by {
        assert(s.skip(a7 as int).len() == tail.len());
    }
}

/// The start time of a track info reads back, if it has one.
proof fn lemma_info_start_field(
    s: Seq<u8>,
    start: i64,
    before: TrackInfoPartsModel,
    at: nat,
    rest: Seq<u8>,
)
    requires
        fields::<TrackInfoParts>(s, 6, 7) == Ok::<(TrackInfoPartsModel, nat), ProtoError>(
            (before, at),
        ),
        at <= s.len(),
        s.skip(at as int) == string_wire("started_at"@) + signed_bits(start).wire() + rest,
    ensures
        fields::<TrackInfoParts>(s, 6, 8) == Ok::<(TrackInfoPartsModel, nat), ProtoError>(
            (TrackInfoPartsModel { started_at: Some(start), ..before }, (s.len() - rest.len()) as nat),
        ),
        rest.len() <= s.len(),
{
    lemma_info_names_short();
    let bits = signed_bits(start);
    lemma_field_started_at(before, start, rest);
    lemma_step::<TrackInfoParts>(
        s,
        7,
        before,
        at,
        "started_at"@,
        bits.wire(),
        rest,
        TrackInfoPartsModel { started_at: Some(start), ..before },
    );
    let a8 = (at + string_wire("started_at"@).len() + bits.wire().len()) as nat;
    assert(s.len() == a8 + rest.len()) by {
        assert(s.skip(a8 as int).len() == rest.len());
    }
}

/// Passing over the last fields of a track info passes over their bytes.
proof fn lemma_info_skip_last(info: TrackInfoModel, rest: Seq<u8>)
    ensures
        crate::proto::skip_many(
            info_samples_then(info, info_tail(info, rest)),
            if info.started_at is Some {
                8nat
            } else {
                6nat
            },
        ) == Ok::<nat, ProtoError>(
            (info_samples_then(info, info_tail(info, rest)).len() - rest.len()) as nat,
        ),
        rest.len() <= info_samples_then(info, info_tail(info, rest)).len(),
{
    lemma_info_names_short();
    let tail = info_tail(info, rest);
    let t6 = string_wire("sample_position"@) + info.sample_position.wire() + tail;
    let t5 = string_wire("sample_count"@) + info.sample_count.wire() + t6;
    let more: nat = if info.started_at is Some { 2 } else { 0 };
    let m0: nat = (tail.len() - rest.len()) as nat;
    match info.started_at {
        Some(start) => {
            let bits = signed_bits(start);
            bits.lemma_round_trip(rest);
            lemma_skip_none(rest);
            lemma_skip_field("started_at"@, bits.wire(), rest, 0, 0);
        },
        None => {
            lemma_skip_none(rest);
        },
    }
    info.sample_position.lemma_round_trip(tail);
    lemma_skip_field("sample_position"@, info.sample_position.wire(), tail, more, m0);
    let m1 = string_wire("sample_position"@).len() + info.sample_position.wire().len() + m0;
    info.sample_count.lemma_round_trip(t6);
    lemma_skip_field("sample_count"@, info.sample_count.wire(), t6, more + 2, m1);
    let m2 = string_wire("sample_count"@).len() + info.sample_count.wire().len() + m1;
    info.sample_rate.lemma_round_trip(t5);
    lemma_skip_field("sample_rate"@, info.sample_rate.wire(), t5, more + 4, m2);
}

/// Passing over the fields of a track info passes over their bytes.
proof fn lemma_info_skip(info: TrackInfoModel, rest: Seq<u8>)
    requires
        track_info_writable(info),
    ensures
        crate::proto::skip_many(
            info_body(info, rest),
            if info.started_at is Some {
                16nat
            } else {
                14nat
            },
        ) == Ok::<nat, ProtoError>((info_body(info, rest).len() - rest.len()) as nat),
        rest.len() <= info_body(info, rest).len(),
{
    lemma_info_names_short();
    let samples = info_samples_then(info, info_tail(info, rest));
    let t3 = string_wire("title"@) + string_wire(info.title) + samples;
    let t2 = string_wire("album"@) + string_wire(info.album) + t3;
    let t1 = string_wire("artist"@) + string_wire(info.artist) + t2;
    let more: nat = if info.started_at is Some { 8 } else { 6 };
    let m0: nat = (samples.len() - rest.len()) as nat;
    lemma_info_skip_last(info, rest);
    crate::proto::lemma_string_round_trip(info.title, samples);
    lemma_skip_field("title"@, string_wire(info.title), samples, more, m0);
    let m1 = string_wire("title"@).len() + string_wire(info.title).len() + m0;
    crate::proto::lemma_string_round_trip(info.album, t3);
    lemma_skip_field("album"@, string_wire(info.album), t3, more + 2, m1);
    let m2 = string_wire("album"@).len() + string_wire(info.album).len() + m1;
    crate::proto::lemma_string_round_trip(info.artist, t2);
    lemma_skip_field("artist"@, string_wire(info.artist), t2, more + 4, m2);
    let m3 = string_wire("artist"@).len() + string_wire(info.artist).len() + m2;
    info.handle.0.lemma_round_trip(t1);
    lemma_skip_field("handle"@, info.handle.0.wire(), t1, more + 6, m3);
}

impl RoundTrip for TrackInfo {
    proof fn lemma_round_trip(&self, rest: Seq<u8>) {
        let info = self@;
        let count: u32 = if info.started_at is Some { 8 } else { 7 };
        let s = self.wire() + rest;
        let body = info_body(info, rest);
        let samples = info_samples_then(info, info_tail(info, rest));
        lemma_info_nested(info, rest);
        crate::proto::lemma_header(TYPE_STRUCT, count, body);
        lemma_info_first_fields(s, info, samples);
        let before = TrackInfoPartsModel {
            handle: Some(info.handle),
            artist: Some(info.artist),
            album: Some(info.album),
            title: Some(info.title),
            ..TrackInfoParts::start()
        };
        let tail = info_tail(info, rest);
        lemma_info_sample_fields(s, info, before, (s.len() - samples.len()) as nat, tail);
        let seven = TrackInfoPartsModel {
            sample_rate: Some(info.sample_rate),
            sample_count: Some(info.sample_count),
            sample_position: Some(info.sample_position),
            ..before
        };
        match info.started_at {
            Some(start) => {
                lemma_info_start_field(s, start, seven, (s.len() - tail.len()) as nat, rest);
            },
            None => {},
        }
        lemma_info_skip(info, rest);
        lemma_skip_struct(count, body, (body.len() - rest.len()) as nat);
    }
}

/// The names of the fields of a queue status are short and differ.
proof fn lemma_queue_names()
    ensures
        encode_utf8("upcoming"@).len() <= u32::MAX,
        encode_utf8("history"@).len() <= u32::MAX,
        "history"@ != "upcoming"@,
{
    reveal_strlit("upcoming");
    reveal_strlit("history");
    lemma_short_name("upcoming"@);
    lemma_short_name("history"@);
    assert("history"@.len() != "upcoming"@.len());
}

/// What reading a list of track infos under a name of a queue status
/// gives.
proof fn lemma_queue_field(parts: QueuePartsModel, list: Vec<TrackInfo>, tail: Seq<u8>)
    requires
        list.writable(),
    ensures
        QueueParts::field(parts, "upcoming"@, list.wire() + tail) == Ok::<
            (QueuePartsModel, nat),
            ProtoError,
        >((QueuePartsModel { upcoming: Some(infos_model(list@)), ..parts }, list.wire().len())),
        QueueParts::field(parts, "history"@, list.wire() + tail) == Ok::<
            (QueuePartsModel, nat),
            ProtoError,
        >((QueuePartsModel { history: Some(infos_model(list@)), ..parts }, list.wire().len())),
        skip_spec(list.wire() + tail) == Ok::<nat, ProtoError>(list.wire().len()),
{
    lemma_queue_names();
    list.lemma_round_trip(tail);
    assert(infos_model(list@) =~= list.model());
}

impl RoundTrip for Queue {
    proof fn lemma_round_trip(&self, rest: Seq<u8>) {
        lemma_queue_names();
        let first = self.upcoming.wire();
        let second = self.history.wire();
        let s = self.wire() + rest;
        let start = QueueParts::start();
        let one = QueuePartsModel { upcoming: Some(infos_model(self.upcoming@)), ..start };
        let both = QueuePartsModel { history: Some(infos_model(self.history@)), ..one };
        let t2 = string_wire("history"@) + second + rest;
        let body = string_wire("upcoming"@) + first + t2;
        lemma_regroup(
            be_bytes_u16(TYPE_STRUCT) + be_bytes_u32(2),
            string_wire("upcoming"@) + first,
            string_wire("history"@) + second,
            rest,
        );
        lemma_regroup(
            be_bytes_u16(TYPE_STRUCT) + be_bytes_u32(2),
            string_wire("upcoming"@),
            first,
            Seq::<u8>::empty(),
        );
        assert(first + Seq::<u8>::empty() =~= first);
        assert(s =~= be_bytes_u16(TYPE_STRUCT) + be_bytes_u32(2) + body);
        crate::proto::lemma_header(TYPE_STRUCT, 2, body);
        lemma_queue_field(start, self.upcoming, t2);
        lemma_queue_field(one, self.history, rest);
        lemma_fields_start::<QueueParts>(s);
        lemma_step::<QueueParts>(s, 0, start, 6, "upcoming"@, first, t2, one);
        let at = (6 + string_wire("upcoming"@).len() + first.len()) as nat;
        lemma_step::<QueueParts>(s, 1, one, at, "history"@, second, rest, both);
        lemma_skip_none(rest);
        lemma_skip_field("history"@, second, rest, 0, 0);
        lemma_skip_field("upcoming"@, first, t2, 2, string_wire("history"@).len() + second.len());
        lemma_skip_struct(
            2,
            body,
            string_wire("upcoming"@).len() + first.len() + string_wire("history"@).len()
                + second.len(),
        );
        assert(s.len() == 6 + body.len());
        assert(self.wire().len() == at + string_wire("history"@).len() + second.len());
    }
}

} // verus!
