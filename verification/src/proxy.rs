//! What control clients ask for and what they are told.

use vstd::prelude::*;
use crate::queue::{Handle, TrackInfo};

verus! {

/// Operation code of an enqueue request.
pub const OP_ENQUEUE_TRACK: u32 = 0x1000;

/// Operation code of a fast-forward request.
pub const OP_FAST_FORWARD: u32 = 0x1001;

/// Operation code of a queue status request.
pub const OP_QUEUE_STATUS: u32 = 0x1002;

/// Operation code of a request to replace the fallback track.
pub const OP_REPLACE_FALLBACK: u32 = 0x1003;

/// The kinds of request.
#[derive(Debug, Clone, Copy, PartialEq, Eq, Structural)]
pub enum RequestType {
    EnqueueTrack,
    FastForward,
    QueueStatus,
    ReplaceFallback,
}

impl RequestType {
    /// The operation code of a kind of request.
    pub open spec fn op_code(self) -> u32 {
        match self {
            RequestType::EnqueueTrack => OP_ENQUEUE_TRACK,
            RequestType::FastForward => OP_FAST_FORWARD,
            RequestType::QueueStatus => OP_QUEUE_STATUS,
            RequestType::ReplaceFallback => OP_REPLACE_FALLBACK,
        }
    }

    /// The kind of request that an operation code stands for.
    pub open spec fn from_code(op_code: u32) -> Option<RequestType> {
        if op_code == OP_ENQUEUE_TRACK {
            Some(RequestType::EnqueueTrack)
        } else if op_code == OP_FAST_FORWARD {
            Some(RequestType::FastForward)
        } else if op_code == OP_QUEUE_STATUS {
            Some(RequestType::QueueStatus)
        } else if op_code == OP_REPLACE_FALLBACK {
            Some(RequestType::ReplaceFallback)
        } else {
            None
        }
    }

    /// The kind of request that an operation code stands for.
    pub fn from_op_code(op_code: u32) -> (r: Result<RequestType, ()>)
        ensures
            match r {
                Ok(kind) => RequestType::from_code(op_code) == Some(kind) && kind.op_code()
                    == op_code,
                Err(_) => RequestType::from_code(op_code) is None && forall|kind: RequestType|
                    kind.op_code() != op_code,
            },
    {
        if op_code == OP_ENQUEUE_TRACK {
            Ok(RequestType::EnqueueTrack)
        } else if op_code == OP_FAST_FORWARD {
            Ok(RequestType::FastForward)
        } else if op_code == OP_QUEUE_STATUS {
            Ok(RequestType::QueueStatus)
        } else if op_code == OP_REPLACE_FALLBACK {
            Ok(RequestType::ReplaceFallback)
        } else {
            Err(())
        }
    }

    /// The operation code of this kind of request.
    pub fn to_op_code(&self) -> (op_code: u32)
        ensures
            op_code == self.op_code(),
    {
        match *self {
            RequestType::EnqueueTrack => OP_ENQUEUE_TRACK,
            RequestType::FastForward => OP_FAST_FORWARD,
            RequestType::QueueStatus => OP_QUEUE_STATUS,
            RequestType::ReplaceFallback => OP_REPLACE_FALLBACK,
        }
    }
}

/// A request: it knows its kind.
pub trait Request: Sized {
    /// The kind of the request.
    spec fn kind(&self) -> RequestType;

    /// The kind of the request.
    fn req_type(&self) -> (kind: RequestType)
        ensures
            kind == self.kind(),
    ;
}

/// Asks to put a track at the tail of the queue.
pub struct EnqueueTrackRequest {
    /// The track, as the client sent it.
    pub track: Vec<u8>,
    /// Comments to put in place of the track's own.
    pub metadata: Option<Vec<(String, String)>>,
}

impl Request for EnqueueTrackRequest {
    open spec fn kind(&self) -> RequestType {
        RequestType::EnqueueTrack
    }

    fn req_type(&self) -> (kind: RequestType) {
        RequestType::EnqueueTrack
    }
}

/// Why a track was not taken.
#[derive(Debug, Clone, Copy, PartialEq, Eq, Structural)]
pub enum EnqueueTrackError {
    InvalidTrack,
    BadSampleRate,
    Full,
}

/// What an enqueue request is answered with.
pub type EnqueueTrackResult = Result<Handle, EnqueueTrackError>;

impl EnqueueTrackError {
    /// The number that stands for the error on the wire.
    pub open spec fn code(self) -> u32 {
        match self {
            EnqueueTrackError::InvalidTrack => 1,
            EnqueueTrackError::BadSampleRate => 2,
            EnqueueTrackError::Full => 3,
        }
    }

    /// The number that stands for the error on the wire.
    pub fn to_u32(&self) -> (n: u32)
        ensures
            n == self.code(),
    {
        match *self {
            EnqueueTrackError::InvalidTrack => 1,
            EnqueueTrackError::BadSampleRate => 2,
            EnqueueTrackError::Full => 3,
        }
    }

    /// The error that a number stands for.
    pub open spec fn from_code(n: u32) -> Option<EnqueueTrackError> {
        if n == 1 {
            Some(EnqueueTrackError::InvalidTrack)
        } else if n == 2 {
            Some(EnqueueTrackError::BadSampleRate)
        } else if n == 3 {
            Some(EnqueueTrackError::Full)
        } else {
            None
        }
    }

    /// The error that a number stands for.
    pub fn from_u32(val: u32) -> (r: Option<EnqueueTrackError>)
        ensures
            r == EnqueueTrackError::from_code(val),
            match r {
                Some(e) => e.code() == val,
                None => forall|e: EnqueueTrackError| e.code() != val,
            },
    {
        match val {
            1 => Some(EnqueueTrackError::InvalidTrack),
            2 => Some(EnqueueTrackError::BadSampleRate),
            3 => Some(EnqueueTrackError::Full),
            _ => None,
        }
    }
}

/// How far to skip.
#[derive(Debug, Clone, Copy, PartialEq, Eq, Structural)]
pub enum FastForward {
    /// To the end of the track that is playing.
    TrackBoundary,
}

impl FastForward {
    /// The number that stands for the kind on the wire.
    pub open spec fn code(self) -> u32 {
        0
    }

    /// The number that stands for the kind on the wire.
    pub fn to_u32(&self) -> (n: u32)
        ensures
            n == self.code(),
    {
        0
    }

    /// The kind that a number stands for.
    pub open spec fn from_code(n: u32) -> Option<FastForward> {
        if n == 0 {
            Some(FastForward::TrackBoundary)
        } else {
            None
        }
    }

    /// The kind that a number stands for.
    pub fn from_u32(n: u32) -> (r: Option<FastForward>)
        ensures
            r == FastForward::from_code(n),
    {
        match n {
            0 => Some(FastForward::TrackBoundary),
            _ => None,
        }
    }
}

/// Asks to skip what is playing.
#[derive(Debug, Clone, Copy, PartialEq, Eq, Structural)]
pub struct FastForwardRequest {
    pub kind: FastForward,
}

impl Request for FastForwardRequest {
    open spec fn kind(&self) -> RequestType {
        RequestType::FastForward
    }

    fn req_type(&self) -> (kind: RequestType) {
        RequestType::FastForward
    }
}

/// A fast-forward request failed.
#[derive(Debug, Clone, Copy, PartialEq, Eq, Structural)]
pub struct FastForwardError;

/// What a fast-forward request is answered with.
pub type FastForwardResult = Result<(), FastForwardError>;

/// Asks what plays, what waits and what was played.
#[derive(Debug, Clone, Copy, PartialEq, Eq, Structural)]
pub struct StatusRequest;

impl Request for StatusRequest {
    open spec fn kind(&self) -> RequestType {
        RequestType::QueueStatus
    }

    fn req_type(&self) -> (kind: RequestType) {
        RequestType::QueueStatus
    }
}

/// A status request failed.
#[derive(Debug, Clone, Copy, PartialEq, Eq, Structural)]
pub struct StatusError;

/// The playing and waiting tracks, and the tracks played before.
#[derive(Debug)]
pub struct Queue {
    /// The track that plays, if one of the queue does, and the waiting
    /// tracks behind it.
    pub upcoming: Vec<TrackInfo>,
    pub history: Vec<TrackInfo>,
}

/// What a status request is answered with.
pub type StatusResult = Result<Queue, StatusError>;

/// Asks to put another track in place of the fallback track.
pub struct ReplaceFallbackRequest {
    /// The track, as the client sent it.
    pub track: Vec<u8>,
    /// Comments to put in place of the track's own.
    pub metadata: Option<Vec<(String, String)>>,
}

impl Request for ReplaceFallbackRequest {
    open spec fn kind(&self) -> RequestType {
        RequestType::ReplaceFallback
    }

    fn req_type(&self) -> (kind: RequestType) {
        RequestType::ReplaceFallback
    }
}

/// Why a fallback track was not taken.
#[derive(Debug, Clone, Copy, PartialEq, Eq, Structural)]
pub enum ReplaceFallbackError {
    InvalidTrack,
    BadSampleRate,
    Full,
}

/// What a request to replace the fallback track is answered with.
pub type ReplaceFallbackResult = Result<(), ReplaceFallbackError>;

impl ReplaceFallbackError {
    /// The number that stands for the error on the wire.
    pub open spec fn code(self) -> u32 {
        match self {
            ReplaceFallbackError::InvalidTrack => 1,
            ReplaceFallbackError::BadSampleRate => 2,
            ReplaceFallbackError::Full => 3,
        }
    }

    /// The number that stands for the error on the wire.
    pub fn to_u32(&self) -> (n: u32)
        ensures
            n == self.code(),
    {
        match *self {
            ReplaceFallbackError::InvalidTrack => 1,
            ReplaceFallbackError::BadSampleRate => 2,
            ReplaceFallbackError::Full => 3,
        }
    }

    /// The error that a number stands for.
    pub open spec fn from_code(n: u32) -> Option<ReplaceFallbackError> {
        if n == 1 {
            Some(ReplaceFallbackError::InvalidTrack)
        } else if n == 2 {
            Some(ReplaceFallbackError::BadSampleRate)
        } else if n == 3 {
            Some(ReplaceFallbackError::Full)
        } else {
            None
        }
    }

    /// The error that a number stands for.
    pub fn from_u32(val: u32) -> (r: Option<ReplaceFallbackError>)
        ensures
            r == ReplaceFallbackError::from_code(val),
            match r {
                Some(e) => e.code() == val,
                None => forall|e: ReplaceFallbackError| e.code() != val,
            },
    {
        match val {
            1 => Some(ReplaceFallbackError::InvalidTrack),
            2 => Some(ReplaceFallbackError::BadSampleRate),
            3 => Some(ReplaceFallbackError::Full),
            _ => None,
        }
    }
}

} // verus!
