//! Ordered-delivery reorder engine for a RakNet-style transport protocol.
//!
//! Incoming packets may carry batches of frames; a frame may be annotated
//! with an ordering channel and a per-channel sequence index. This crate
//! holds the per-channel reorder state and the batch-processing state
//! machine that releases ordered frames strictly in sequence per channel,
//! buffering early arrivals and silently discarding stale ones. The
//! asynchronous stream plumbing around it (polling an upstream packet
//! source) lives outside the verified library and drives [`Reorder`] one
//! packet at a time.

mod laws;
mod ordered;
mod packet;

pub use laws::arrival_index_set;
pub use laws::channel_feed;
pub use laws::channels_of;
pub use laws::exceeds_limit;
pub use laws::frames_on_channel;
pub use laws::lemma_bad_channel_iff;
pub use laws::lemma_channel_feed_append;
pub use laws::lemma_in_order_delivery;
pub use laws::lemma_run_projects_to_channel;
pub use laws::lemma_scan_keeps_inv;
pub use laws::lemma_scan_projects_to_channel;
pub use laws::lemma_stale_frame_dropped;
pub use laws::lemma_transform_in_order_delivery;
pub use laws::lemma_unordered_batch_passthrough;
pub use laws::lemma_unordered_run_passthrough;
pub use laws::names_channel;
pub use laws::run_frames;
pub use laws::run_projection;
pub use laws::scan_run;
pub use laws::seen;
pub use ordered::channel_init;
pub use ordered::channel_inv;
pub use ordered::channel_step;
pub use ordered::drain;
pub use ordered::scan;
pub use ordered::scan_outcome_holds;
pub use ordered::ChannelModel;
pub use ordered::ChannelState;
pub use ordered::Reorder;
pub use ordered::ReorderModel;
pub use ordered::ScanOutcome;
pub use packet::CodecError;
pub use packet::Frame;
pub use packet::FrameSet;
pub use packet::OrderAnnotation;
pub use packet::Packet;
