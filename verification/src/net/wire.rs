//! The wire format's limits, as far as they are not the encoding itself: how big a frame
//! may be, and which messages ride the unreliable path.
use vstd::prelude::*;
use crate::session::Heard;

verus! {

/// Ceiling on a single stream frame. The world is the only message that grows with play,
/// and at about sixteen bytes per edit this allows a million-block build before it bites.
pub const MAX_FRAME_LEN: usize = 16777216;

/// Datagram payloads must fit the smallest datagram QUIC guarantees, a little over a
/// kilobyte before path discovery grows it.
pub const MAX_DATAGRAM_LEN: usize = 1024;

/// Why a frame was not sent.
#[derive(Debug, Clone, Copy, PartialEq, Eq, Structural)]
pub enum FrameError {
    /// The encoded message is this many bytes, past [`MAX_FRAME_LEN`].
    TooLarge(usize),
}

/// An encoded message, as it may be sent: refused if it is past [`MAX_FRAME_LEN`], and
/// otherwise handed back untouched.
pub fn sendable(bytes: Vec<u8>) -> (r: Result<Vec<u8>, FrameError>)
    ensures
        bytes@.len() > MAX_FRAME_LEN ==> r == Err::<Vec<u8>, FrameError>(FrameError::TooLarge(bytes@.len() as usize)),
        bytes@.len() <= MAX_FRAME_LEN ==> (r matches Ok(b) && b@ == bytes@),
{
    let n = bytes.len();
    if n > MAX_FRAME_LEN {
        Err(FrameError::TooLarge(n))
    } else {
        Ok(bytes)
    }
}

impl Heard {
    /// Pose traffic rides unreliable datagrams; everything else needs the ordered, reliable
    /// stream. The one place that decision is made.
    pub fn via_datagram(self) -> (r: bool)
        ensures
            r == (self is Pose),
    {
        match self {
            Heard::Pose { .. } => true,
            _ => false,
        }
    }
}

} // verus!
