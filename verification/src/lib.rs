//! RTDP/1: a binary frame protocol with loss-aware, bounded replay.
//!
//! The crate holds the wire codec (fixed header, TLV extensions, CRC-32C
//! integrity), the publisher-side retention ring, the subscriber-side
//! sequence tracker, duplicate filter, recovery engine and delivery modes,
//! the decisions of the UDP transport (publishing, answering replay
//! requests, handling each received datagram), and the records and status
//! codes of the C interface.

pub mod wire;
pub mod buffers;
pub mod cabi;
pub mod checksum;
pub mod clock;
pub mod delivery;
pub mod error;
pub mod hex;
pub mod protocol;
pub mod recovery;
pub mod sequence;
pub mod serialization;
pub mod transport;

pub use buffers::BoundedRingBuffer;
pub use delivery::{DeliveryMode, StreamReceiver};
pub use error::{ErrorCode, RtdpError};
pub use protocol::{
    extensions::{HeaderExtension, CRITICAL_EXTENSION_BIT},
    frame::{FrameView, OwnedFrame},
    header::{
        FixedHeader, FrameFlags, MessageType, DEFAULT_MAX_FRAME_SIZE, FIXED_HEADER_SIZE,
        MAGIC_RTDP, RTDP_VERSION_1,
    },
};
pub use recovery::{
    ActiveReplayRequest, RecoveryConfig, RecoveryEngine, RecoveryState, ReplayRequestPayload,
    ReplayUnavailablePayload,
};
pub use sequence::{DuplicateFilter, DuplicateKey, SequenceStatus, StreamSequenceTracker};
pub use serialization::{CodecConfig, FrameCodec};
