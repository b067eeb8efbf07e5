//! The data unit moving through the hub: an opaque timestamped media payload.

use vstd::prelude::*;

verus! {

/// What kind of media a frame carries. The hub never inspects the payload;
/// the kind travels with it so consumers can route audio, video and metadata.
#[derive(Clone, Copy, PartialEq, Eq, Structural, Debug)]
pub enum FrameKind {
    Audio,
    Video,
    Metadata,
}

/// One media frame: an opaque payload with a presentation timestamp.
#[derive(Debug)]
pub struct MediaFrame {
    pub kind: FrameKind,
    pub timestamp: u32,
    pub payload: Vec<u8>,
}

/// Mathematical image of a frame: the payload as a sequence of bytes.
pub struct FrameView {
    pub kind: FrameKind,
    pub timestamp: u32,
    pub payload: Seq<u8>,
}

impl View for MediaFrame {
    type V = FrameView;

    open spec fn view(&self) -> FrameView {
        FrameView { kind: self.kind, timestamp: self.timestamp, payload: self.payload@ }
    }
}

impl Clone for MediaFrame {
    /// Fan-out hands each subscriber its own copy of the frame.
    fn clone(&self) -> (r: Self)
        ensures
            r@ == self@,
    {
        MediaFrame { kind: self.kind, timestamp: self.timestamp, payload: self.payload.clone() }
    }
}

} // verus!
