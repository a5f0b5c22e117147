//! Plain data types for the packets and frames that the reorder engine
//! inspects. Frame bodies are opaque byte payloads; the engine never reads
//! them, it only decides when each frame may travel on.
use vstd::prelude::*;

verus! {

/// The ordering annotation a frame may carry: the per-channel sequence
/// index assigned by the sender, and the channel the frame belongs to.
/// Channel identifiers travel on the wire as single unsigned bytes; the
/// sequence index travels as a 24-bit value but is stored and compared
/// here in a wider type, without modular reduction.
#[derive(Clone, Copy, Debug, PartialEq, Eq, Structural)]
pub struct OrderAnnotation {
    pub frame_index: u32,
    pub channel: u8,
}

/// One payload unit carried inside a frame batch. Only the `ordered`
/// annotation matters to the reorder engine; everything else rides along
/// untouched.
#[derive(Clone, Debug, PartialEq, Eq)]
pub struct Frame {
    /// Raw reliability flag byte, preserved verbatim.
    pub flags: u8,
    pub reliable_frame_index: Option<u32>,
    pub seq_frame_index: Option<u32>,
    /// Present exactly on the frames that demand in-order delivery.
    pub ordered: Option<OrderAnnotation>,
    /// Opaque payload bytes.
    pub body: Vec<u8>,
}

/// A frame batch: the one packet kind the reorder engine inspects. Its
/// outer sequence number is copied unchanged onto any batch the engine
/// re-emits.
#[derive(Clone, Debug, PartialEq, Eq)]
pub struct FrameSet {
    pub seq_num: u32,
    pub frames: Vec<Frame>,
}

/// The unit pulled from upstream and pushed downstream. Every kind other
/// than a frame batch is opaque to the reorder engine and passes through
/// unmodified.
#[derive(Clone, Debug, PartialEq, Eq)]
pub enum Packet {
    FrameSet(FrameSet),
    /// Any packet kind this layer does not inspect, carried as raw bytes.
    Other(Vec<u8>),
}

/// The one error this layer can raise: a frame named an ordering channel
/// at or beyond the configured limit. Fatal for the stream; the caller is
/// expected to tear the session down.
#[derive(Clone, Copy, Debug, PartialEq, Eq, Structural)]
pub enum CodecError {
    OrderedFrame { channel: u8, max_channels: usize },
}

} // verus!
