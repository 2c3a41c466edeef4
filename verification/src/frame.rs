//! Frames of the control protocol.
//!
//! A client sends `version (1 byte) | op code (4 bytes) | length (4 bytes) |
//! body`. Op code 0 says goodbye and has neither length nor body. The answer
//! is `length (4 bytes) | body`. All numbers are big-endian.

use vstd::prelude::*;
use vstd::slice::slice_subrange;
use crate::byteio::{
    append_bytes, be_bytes_u32, be_u32, lemma_decode_encode_u32, read_u32_be, u32_to_be,
};
use crate::proto::{deserialize, serialize, Cursor, Deserialize, ProtoError, Serialize};
use crate::proxy::{
    EnqueueTrackRequest, EnqueueTrackResult, FastForwardRequest, FastForwardResult,
    ReplaceFallbackRequest, ReplaceFallbackResult, RequestType, StatusRequest, StatusResult,
};
use crate::splicer::{metadata_model, Core};

verus! {

/// The protocol version that is spoken.
pub const PROTOCOL_VERSION: u8 = 0;

/// The largest body that a frame may have: 20 MiB.
pub const BUFFER_SIZE_LIMIT: u32 = 20_971_520;

/// Why a connection is closed.
#[derive(Debug, Clone, Copy, PartialEq, Eq, Structural)]
pub enum ProtocolError {
    /// The frame does not begin with the version that is spoken.
    InvalidVersion,
    /// The op code stands for no kind of request.
    UnknownOpCode,
    /// The body is longer than `BUFFER_SIZE_LIMIT`.
    TooLong,
    /// The connection ended within a frame.
    Truncated,
}

/// What to do with the bytes of a frame that have come so far.
#[derive(Debug, Clone, Copy, PartialEq, Eq, Structural)]
pub enum FrameStep {
    /// Read on until this many bytes of the frame are there.
    NeedBytes(usize),
    /// The client said goodbye.
    Goodbye,
    /// The frame is complete: a request of this kind, with a body of this
    /// many bytes behind the nine bytes of the frame's head.
    Request(RequestType, u32),
    /// Close the connection.
    Invalid(ProtocolError),
}

/// What to do with the bytes `s` of a frame that have come so far.
pub open spec fn frame_spec(s: Seq<u8>) -> FrameStep {
    if s.len() < 5 {
        FrameStep::NeedBytes(5)
    } else if s[0] != PROTOCOL_VERSION {
        FrameStep::Invalid(ProtocolError::InvalidVersion)
    } else if be_u32(s.subrange(1, 5)) == 0 {
        FrameStep::Goodbye
    } else {
        match RequestType::from_code(be_u32(s.subrange(1, 5))) {
            None => FrameStep::Invalid(ProtocolError::UnknownOpCode),
            Some(kind) => if s.len() < 9 {
                FrameStep::NeedBytes(9)
            } else if be_u32(s.subrange(5, 9)) > BUFFER_SIZE_LIMIT {
                FrameStep::Invalid(ProtocolError::TooLong)
            } else if s.len() < 9 + be_u32(s.subrange(5, 9)) {
                FrameStep::NeedBytes((9 + be_u32(s.subrange(5, 9))) as usize)
            } else {
                FrameStep::Request(kind, be_u32(s.subrange(5, 9)))
            },
        }
    }
}

/// Says what to do with the bytes of a frame that have come so far: read
/// on, take the request, say goodbye, or close the connection.
pub fn read_frame(bytes: &[u8]) -> (step: FrameStep)
    ensures
        step == frame_spec(bytes@),
{
    if bytes.len() < 5 {
        return FrameStep::NeedBytes(5);
    }
    if bytes[0] != PROTOCOL_VERSION {
        return FrameStep::Invalid(ProtocolError::InvalidVersion);
    }
    let op_code = read_u32_be(slice_subrange(bytes, 1, 5));
    if op_code == 0 {
        return FrameStep::Goodbye;
    }
    let kind = match RequestType::from_op_code(op_code) {
        Ok(kind) => kind,
        Err(_) => {
            return FrameStep::Invalid(ProtocolError::UnknownOpCode);
        },
    };
    if bytes.len() < 9 {
        return FrameStep::NeedBytes(9);
    }
    let length = read_u32_be(slice_subrange(bytes, 5, 9));
    if length > BUFFER_SIZE_LIMIT {
        return FrameStep::Invalid(ProtocolError::TooLong);
    }
    if bytes.len() - 9 < length as usize {
        return FrameStep::NeedBytes(9 + length as usize);
    }
    FrameStep::Request(kind, length)
}

/// Says what to make of the bytes of a frame when the connection has ended
/// behind them: a frame that is not complete is truncated.
pub fn close_frame(bytes: &[u8]) -> (step: FrameStep)
    ensures
        step == match frame_spec(bytes@) {
            FrameStep::NeedBytes(_) => FrameStep::Invalid(ProtocolError::Truncated),
            other => other,
        },
{
    match read_frame(bytes) {
        FrameStep::NeedBytes(_) => FrameStep::Invalid(ProtocolError::Truncated),
        other => other,
    }
}

/// The bytes of the frame that carries a request.
pub open spec fn request_frame(kind: RequestType, body: Seq<u8>) -> Seq<u8> {
    seq![PROTOCOL_VERSION] + be_bytes_u32(kind.op_code()) + be_bytes_u32(body.len() as u32) + body
}

/// The bytes of the frame that says goodbye.
pub open spec fn goodbye_frame() -> Seq<u8> {
    seq![PROTOCOL_VERSION] + be_bytes_u32(0)
}

/// The bytes of the frame that carries an answer.
pub open spec fn response_frame(body: Seq<u8>) -> Seq<u8> {
    be_bytes_u32(body.len() as u32) + body
}

/// Puts a request in a frame. Fails if the body is longer than a frame may
/// have.
pub fn frame_request(kind: RequestType, body: &[u8]) -> (r: Result<Vec<u8>, ProtocolError>)
    ensures
        match r {
            Ok(frame) => body@.len() <= BUFFER_SIZE_LIMIT && frame@ == request_frame(kind, body@),
            Err(e) => body@.len() > BUFFER_SIZE_LIMIT && e == ProtocolError::TooLong,
        },
{
    if body.len() > BUFFER_SIZE_LIMIT as usize {
        return Err(ProtocolError::TooLong);
    }
    let mut frame: Vec<u8> = Vec::new();
    frame.push(PROTOCOL_VERSION);
    let op_code = u32_to_be(kind.to_op_code());
    append_bytes(&mut frame, op_code.as_slice());
    let length = u32_to_be(body.len() as u32);
    append_bytes(&mut frame, length.as_slice());
    append_bytes(&mut frame, body);
    assert(frame@ =~= request_frame(kind, body@));
    Ok(frame)
}

/// The frame that says goodbye.
pub fn frame_goodbye() -> (frame: Vec<u8>)
    ensures
        frame@ == goodbye_frame(),
{
    let mut frame: Vec<u8> = Vec::new();
    frame.push(PROTOCOL_VERSION);
    let op_code = u32_to_be(0);
    append_bytes(&mut frame, op_code.as_slice());
    assert(frame@ =~= goodbye_frame());
    frame
}

/// Puts an answer in a frame. Fails if the body is longer than 32 bits can
/// say.
pub fn frame_response(body: &[u8]) -> (r: Result<Vec<u8>, ProtocolError>)
    ensures
        match r {
            Ok(frame) => body@.len() <= u32::MAX && frame@ == response_frame(body@),
            Err(e) => body@.len() > u32::MAX && e == ProtocolError::TooLong,
        },
{
    if body.len() > 0xFFFF_FFFF {
        return Err(ProtocolError::TooLong);
    }
    let mut frame = u32_to_be(body.len() as u32);
    append_bytes(&mut frame, body);
    Ok(frame)
}

/// The length of the body of an answer, by the first four bytes of its
/// frame.
pub fn response_length(head: &[u8]) -> (r: Option<u32>)
    ensures
        match r {
            Some(n) => head@.len() >= 4 && n == be_u32(head@.subrange(0, 4)),
            None => head@.len() < 4,
        },
{
    if head.len() < 4 {
        None
    } else {
        Some(read_u32_be(slice_subrange(head, 0, 4)))
    }
}

/// A request put in a frame is read back as that request, and the goodbye
/// frame as goodbye.
pub proof fn lemma_frame_round_trip(kind: RequestType, body: Seq<u8>)
    requires
        body.len() <= BUFFER_SIZE_LIMIT,
    ensures
        frame_spec(request_frame(kind, body)) == FrameStep::Request(kind, body.len() as u32),
        request_frame(kind, body).skip(9) == body,
        frame_spec(goodbye_frame()) == FrameStep::Goodbye,
        response_frame(body).len() == 4 + body.len(),
        be_u32(response_frame(body).subrange(0, 4)) == body.len(),
        response_frame(body).skip(4) == body,
{
    let frame = request_frame(kind, body);
    lemma_decode_encode_u32(0, kind.op_code());
    lemma_decode_encode_u32(0, body.len() as u32);
    lemma_decode_encode_u32(0, 0u32);
    assert(frame.subrange(1, 5) =~= be_bytes_u32(kind.op_code()));
    assert(frame.subrange(5, 9) =~= be_bytes_u32(body.len() as u32));
    assert(frame.skip(9) =~= body);
    assert(goodbye_frame().subrange(1, 5) =~= be_bytes_u32(0));
    assert(response_frame(body).subrange(0, 4) =~= be_bytes_u32(body.len() as u32));
    assert(response_frame(body).skip(4) =~= body);
}

/// A request of any kind.
pub enum AnyRequest {
    EnqueueTrack(EnqueueTrackRequest),
    FastForward(FastForwardRequest),
    QueueStatus(StatusRequest),
    ReplaceFallback(ReplaceFallbackRequest),
}

/// An answer to a request of any kind.
pub enum AnyResponse {
    EnqueueTrack(EnqueueTrackResult),
    FastForward(FastForwardResult),
    QueueStatus(StatusResult),
    ReplaceFallback(ReplaceFallbackResult),
}

impl AnyRequest {
    /// The kind of the request.
    pub open spec fn kind(&self) -> RequestType {
        match self {
            AnyRequest::EnqueueTrack(_) => RequestType::EnqueueTrack,
            AnyRequest::FastForward(_) => RequestType::FastForward,
            AnyRequest::QueueStatus(_) => RequestType::QueueStatus,
            AnyRequest::ReplaceFallback(_) => RequestType::ReplaceFallback,
        }
    }
}

impl AnyResponse {
    /// The kind of request that this answers.
    pub open spec fn kind(&self) -> RequestType {
        match self {
            AnyResponse::EnqueueTrack(_) => RequestType::EnqueueTrack,
            AnyResponse::FastForward(_) => RequestType::FastForward,
            AnyResponse::QueueStatus(_) => RequestType::QueueStatus,
            AnyResponse::ReplaceFallback(_) => RequestType::ReplaceFallback,
        }
    }

    /// The bytes that stand for the answer.
    pub open spec fn wire(&self) -> Seq<u8> {
        match self {
            AnyResponse::EnqueueTrack(r) => r.wire(),
            AnyResponse::FastForward(r) => r.wire(),
            AnyResponse::QueueStatus(r) => r.wire(),
            AnyResponse::ReplaceFallback(r) => r.wire(),
        }
    }

    /// The answer can be written: its lengths fit.
    pub open spec fn writable(&self) -> bool {
        match self {
            AnyResponse::EnqueueTrack(r) => r.writable(),
            AnyResponse::FastForward(r) => r.writable(),
            AnyResponse::QueueStatus(r) => r.writable(),
            AnyResponse::ReplaceFallback(r) => r.writable(),
        }
    }
}

/// Whether the body of a frame reads as a request of kind `kind`, and if
/// not, why.
pub open spec fn request_check(kind: RequestType, body: Seq<u8>) -> Result<(), ProtoError> {
    match kind {
        RequestType::EnqueueTrack => match EnqueueTrackRequest::parse(body) {
            Ok(_) => Ok(()),
            Err(e) => Err(e),
        },
        RequestType::FastForward => match FastForwardRequest::parse(body) {
            Ok(_) => Ok(()),
            Err(e) => Err(e),
        },
        RequestType::QueueStatus => match StatusRequest::parse(body) {
            Ok(_) => Ok(()),
            Err(e) => Err(e),
        },
        RequestType::ReplaceFallback => match ReplaceFallbackRequest::parse(body) {
            Ok(_) => Ok(()),
            Err(e) => Err(e),
        },
    }
}

/// `request` is what the body of a frame reads as, as a request of kind
/// `kind`.
pub open spec fn request_read(kind: RequestType, body: Seq<u8>, request: AnyRequest) -> bool {
    &&& request.kind() == kind
    &&& request_check(kind, body) is Ok
    &&& match request {
        AnyRequest::EnqueueTrack(req) => EnqueueTrackRequest::parse(body)->Ok_0.0 == req.model(),
        AnyRequest::FastForward(req) => FastForwardRequest::parse(body)->Ok_0.0 == req,
        AnyRequest::QueueStatus(req) => true,
        AnyRequest::ReplaceFallback(req) => ReplaceFallbackRequest::parse(body)->Ok_0.0
            == req.model(),
    }
}

/// Reads the body of a frame as a request of kind `kind`.
pub fn decode_request(kind: RequestType, body: &[u8]) -> (r: Result<AnyRequest, ProtoError>)
    ensures
        match r {
            Ok(request) => request_read(kind, body@, request),
            Err(e) => request_check(kind, body@) == Err::<(), ProtoError>(e),
        },
{
    let mut cursor = Cursor::new(body);
    match kind {
        RequestType::EnqueueTrack => {
            let req: EnqueueTrackRequest = deserialize(&mut cursor)?;
            Ok(AnyRequest::EnqueueTrack(req))
        },
        RequestType::FastForward => {
            let req: FastForwardRequest = deserialize(&mut cursor)?;
            Ok(AnyRequest::FastForward(req))
        },
        RequestType::QueueStatus => {
            let req: StatusRequest = deserialize(&mut cursor)?;
            Ok(AnyRequest::QueueStatus(req))
        },
        RequestType::ReplaceFallback => {
            let req: ReplaceFallbackRequest = deserialize(&mut cursor)?;
            Ok(AnyRequest::ReplaceFallback(req))
        },
    }
}

/// Writes an answer as the body of a frame.
pub fn encode_response(response: &AnyResponse) -> (r: Result<Vec<u8>, ProtoError>)
    ensures
        match r {
            Ok(bytes) => response.writable() && bytes@ == response.wire(),
            Err(e) => !response.writable() && e == ProtoError::TooLong,
        },
{
    match response {
        AnyResponse::EnqueueTrack(r) => serialize(r),
        AnyResponse::FastForward(r) => serialize(r),
        AnyResponse::QueueStatus(r) => serialize(r),
        AnyResponse::ReplaceFallback(r) => serialize(r),
    }
}

impl Core {
    /// What answering a request makes of this state: what the operation
    /// of its kind makes of it.
    pub open spec fn handle_spec(&self, after: Core, request: AnyRequest, response: AnyResponse) -> bool {
        match request {
            AnyRequest::EnqueueTrack(req) => match response {
                AnyResponse::EnqueueTrack(r) => self.enqueue_spec(
                    after,
                    req.track@,
                    metadata_model(req.metadata),
                    r,
                ),
                _ => false,
            },
            AnyRequest::FastForward(_) => match response {
                AnyResponse::FastForward(r) => r is Ok && self.fast_forward_spec(after),
                _ => false,
            },
            AnyRequest::QueueStatus(_) => match response {
                AnyResponse::QueueStatus(r) => self.status_spec(r) && after == *self,
                _ => false,
            },
            AnyRequest::ReplaceFallback(req) => match response {
                AnyResponse::ReplaceFallback(r) => self.replace_spec(
                    after,
                    req.track@,
                    metadata_model(req.metadata),
                    r,
                ),
                _ => false,
            },
        }
    }

    /// Answers a request of any kind: hands it to the operation of its
    /// kind.
    pub fn handle(&mut self, request: AnyRequest) -> (response: AnyResponse)
        requires
            old(self).wf(),
        ensures
            final(self).wf(),
            old(self).handle_spec(*final(self), request, response),
    {
        match request {
            AnyRequest::EnqueueTrack(req) => AnyResponse::EnqueueTrack(self.enqueue_track(req)),
            AnyRequest::FastForward(req) => AnyResponse::FastForward(self.fast_forward(req)),
            AnyRequest::QueueStatus(req) => AnyResponse::QueueStatus(self.queue_status(req)),
            AnyRequest::ReplaceFallback(req) => AnyResponse::ReplaceFallback(
                self.replace_fallback(req),
            ),
        }
    }

    /// Answers the request in the body of a frame: reads it, hands it to
    /// the operation of its kind and writes the answer. A body that does
    /// not read as a request of its kind changes nothing. The answer fails
    /// to be written only if it is too long for the codec.
    pub fn respond(&mut self, kind: RequestType, body: &[u8]) -> (r: Result<Vec<u8>, ProtoError>)
        requires
            old(self).wf(),
        ensures
            final(self).wf(),
            match request_check(kind, body@) {
                Err(e) => r == Err::<Vec<u8>, ProtoError>(e) && *final(self) == *old(self),
                Ok(_) => exists|request: AnyRequest, response: AnyResponse|
                    {
                        &&& #[trigger] request_read(kind, body@, request)
                        &&& #[trigger] old(self).handle_spec(*final(self), request, response)
                        &&& match r {
                            Ok(bytes) => response.writable() && bytes@ == response.wire(),
                            Err(e) => !response.writable() && e == ProtoError::TooLong,
                        }
                    },
            },
    {
        let request = match decode_request(kind, body) {
            Ok(request) => request,
            Err(e) => {
                return Err(e);
            },
        };
        let ghost asked = request;
        let response = self.handle(request);
        let r = encode_response(&response);
        proof {
            assert(request_read(kind, body@, asked));
            assert(old(self).handle_spec(*self, asked, response));
        }
        r
    }
}

} // verus!
