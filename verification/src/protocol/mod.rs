//! The RTDP/1 wire format: fixed header, TLV header extensions, frames.

pub mod extensions;
pub mod frame;
pub mod header;

pub use extensions::{ExtensionIterator, HeaderExtension, CRITICAL_EXTENSION_BIT};
pub use frame::{FrameView, OwnedFrame};
pub use header::{
    FixedHeader, FrameFlags, MessageType, DEFAULT_MAX_FRAME_SIZE, FIXED_HEADER_SIZE, MAGIC_RTDP,
    RTDP_VERSION_1,
};
