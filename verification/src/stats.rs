//! A read-only statistics pass over a merged sequence.

use vstd::prelude::*;
use crate::events::{Event, Payload};

verus! {

/// Whether a payload is a note-on message: a channel-voice message whose
/// command nibble is `0x9`. A zero-velocity note-on still counts here as a
/// note-on message; only the dispatcher reinterprets it as a note-off
/// instruction.
pub open spec fn is_note_on_msg(p: Payload) -> bool {
    match p {
        Payload::ChannelVoice { status, .. } => status >> 4 == 9,
        _ => false,
    }
}

/// How many note-on messages a sequence holds.
pub open spec fn note_on_count(s: Seq<Event>) -> int
    decreases s.len(),
{
    if s.len() == 0 {
        0
    } else {
        note_on_count(s.drop_last()) + if is_note_on_msg(s.last().payload) {
            1int
        } else {
            0int
        }
    }
}

/// Aggregate counts derived from one full pass of a merged sequence;
/// immutable once collected.
#[derive(Clone, Copy, Debug, PartialEq, Eq, Structural)]
pub struct ChannelStatistics {
    pub note_on_messages: u64,
}

impl ChannelStatistics {
    /// The total number of note-on messages seen.
    pub fn note_count(&self) -> (r: u64)
        ensures
            r == self.note_on_messages,
    {
        self.note_on_messages
    }
}

/// Counts the note-on messages of a merged sequence in one pass. Order plays
/// no part: only message kinds are counted, never timing.
pub fn collect_statistics(merged: &Vec<Event>) -> (r: ChannelStatistics)
    ensures
        r.note_on_messages == note_on_count(merged@),
{
    let mut count: u64 = 0;
    let mut i: usize = 0;
    while i < merged.len()
        invariant
            0 <= i <= merged@.len(),
            count == note_on_count(merged@.take(i as int)),
            count <= i,
        decreases merged@.len() - i,
    {
        let is_on = match merged[i].payload {
            Payload::ChannelVoice { status, .. } => status >> 4 == 9,
            _ => false,
        };
        proof {
            assert(merged@.take(i + 1).drop_last() =~= merged@.take(i as int));
            assert(merged@.take(i + 1).last() == merged@[i as int]);
        }
        if is_on {
            count = count + 1;
        }
        i = i + 1;
    }
    proof {
        assert(merged@.take(merged@.len() as int) =~= merged@);
    }
    ChannelStatistics { note_on_messages: count }
}

} // verus!
