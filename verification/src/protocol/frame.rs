//! Frames: a fixed header, extension bytes and a payload.

use vstd::prelude::*;

use crate::protocol::extensions::ExtensionIterator;
use crate::protocol::header::{FixedHeader, FrameFlags, MessageType, MAGIC_RTDP, RTDP_VERSION_1};

verus! {

/// A decoded frame borrowing its extension area and payload from the packet.
#[derive(Debug, Clone, Copy, PartialEq, Eq)]
pub struct FrameView<'a> {
    pub header: FixedHeader,
    pub extension_bytes: &'a [u8],
    pub payload: &'a [u8],
}

impl<'a> FrameView<'a> {
    /// An iterator over the frame's header extensions.
    pub fn extensions(&self) -> (r: ExtensionIterator<'a>)
        ensures
            r.data() == self.extension_bytes@,
            r.offset() == 0,
    {
        ExtensionIterator::new(self.extension_bytes)
    }
}

/// The abstract content of a frame.
pub ghost struct FrameModel {
    pub header: FixedHeader,
    pub extension_bytes: Seq<u8>,
    pub payload: Seq<u8>,
}

/// A frame that owns its bytes.
#[derive(Debug, PartialEq, Eq)]
pub struct OwnedFrame {
    pub header: FixedHeader,
    pub extension_bytes: Vec<u8>,
    pub payload: Vec<u8>,
}

impl OwnedFrame {
    /// The abstract content of this frame.
    pub open spec fn model(&self) -> FrameModel {
        FrameModel {
            header: self.header,
            extension_bytes: self.extension_bytes@,
            payload: self.payload@,
        }
    }
}

/// The DATA header `OwnedFrame::new_data` builds: fixed-header length, no
/// flags, zero checksum, and the payload length truncated to 32 bits.
pub open spec fn data_header(
    stream_id: u64,
    sequence: u64,
    timestamp_ns: u64,
    publisher_id: u64,
    payload_len: nat,
) -> FixedHeader {
    FixedHeader {
        magic: MAGIC_RTDP,
        version: RTDP_VERSION_1,
        flags: FrameFlags(0),
        message_type: MessageType::Data,
        header_length: 48,
        stream_id,
        sequence,
        timestamp_ns,
        publisher_id,
        payload_length: payload_len as u32,
        checksum: 0,
    }
}

impl Clone for OwnedFrame {
    fn clone(&self) -> (r: Self)
        ensures
            r.model() == self.model(),
    {
        let extension_bytes = self.extension_bytes.clone();
        let payload = self.payload.clone();
        assert(extension_bytes@ =~= self.extension_bytes@);
        assert(payload@ =~= self.payload@);
        OwnedFrame { header: self.header, extension_bytes, payload }
    }
}

impl OwnedFrame {
    /// A DATA frame with no extensions carrying `payload`.
    pub fn new_data(
        stream_id: u64,
        sequence: u64,
        timestamp_ns: u64,
        publisher_id: u64,
        payload: Vec<u8>,
    ) -> (r: Self)
        ensures
            r.header == data_header(
                stream_id,
                sequence,
                timestamp_ns,
                publisher_id,
                payload@.len(),
            ),
            r.extension_bytes@ == Seq::<u8>::empty(),
            r.payload@ == payload@,
    {
        let payload_len = payload.len() as u32;
        let header = FixedHeader::new_data(
            stream_id,
            sequence,
            timestamp_ns,
            publisher_id,
            payload_len,
            48,
        );
        Self { header, extension_bytes: Vec::new(), payload }
    }

    /// A borrowed view of this frame.
    pub fn view(&self) -> (r: FrameView<'_>)
        ensures
            r.header == self.header,
            r.extension_bytes@ == self.extension_bytes@,
            r.payload@ == self.payload@,
    {
        FrameView {
            header: self.header,
            extension_bytes: self.extension_bytes.as_slice(),
            payload: self.payload.as_slice(),
        }
    }
}

} // verus!
