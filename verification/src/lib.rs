//! Core of an Ogg/Vorbis broadcast relay: page and track codec, Vorbis header
//! handling, play queue, stream splicer and the control protocol.

pub mod byteio;
pub mod crc;
pub mod page;
pub mod resync;
pub mod track;
pub mod vorbis;
pub mod builder;
pub mod queue;
pub mod clock;
pub mod rewrite;
pub mod proxy;
pub mod splicer;
pub mod proto;
pub mod codec;
pub mod frame;
pub mod icecast;
