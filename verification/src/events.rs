//! The event data model shared by every stage of the pipeline.

use vstd::prelude::*;

verus! {

/// The payload of one timeline event.
#[derive(Clone, Copy, Debug, PartialEq, Eq, Structural)]
pub enum Payload {
    /// A channel-voice message: the status byte carries the command nibble in
    /// its upper four bits and the channel nibble in its lower four bits;
    /// `data1` is the note number and `data2` the velocity for note messages.
    ChannelVoice { status: u8, data1: u8, data2: u8 },
    /// A tempo marker: redefines the microseconds-per-quarter-note value for
    /// everything that follows it.
    Tempo { micros_per_quarter: u32 },
    /// Any other event kind: it keeps its place in the timeline but is never
    /// dispatched.
    Other,
}

/// One event in the tick domain: it occurs `delta` ticks after its
/// predecessor in the same sequence. A delta of zero means simultaneous with
/// the predecessor.
#[derive(Clone, Copy, Debug, PartialEq, Eq, Structural)]
pub struct Event {
    pub delta: u64,
    pub payload: Payload,
}

/// One event after tempo resolution: it occurs `delta_ns` nanoseconds after
/// its predecessor. Tempo markers never appear here; they are consumed by the
/// resolver.
#[derive(Clone, Copy, Debug, PartialEq, Eq, Structural)]
pub struct TimedEvent {
    pub delta_ns: u128,
    pub payload: Payload,
}

/// The pipeline's error taxonomy.
#[derive(Clone, Copy, Debug, PartialEq, Eq, Structural)]
pub enum ErrorKind {
    /// Malformed input sequence; fatal before playback begins.
    ParseFailure,
    /// A zero tempo value reached the resolver; rejected explicitly rather
    /// than divided by.
    InvalidTempo,
    /// The output endpoint could not be reached.
    SinkUnavailable,
}

} // verus!
