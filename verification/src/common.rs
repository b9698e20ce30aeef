use vstd::prelude::*;

verus! {

/// Size of one MPEG transport stream packet in bytes.
pub const TS_PACKET_SIZE: usize = 188;

/// The kind of video signal carried by a stream.
#[derive(Clone, Copy, Debug, PartialEq, Eq, Structural)]
pub enum VideoMode {
    Sdr,
    Hdr,
    DolbyVision,
}

} // verus!
