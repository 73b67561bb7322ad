//! A tick-based musical event pipeline: merging independent event tracks into
//! one time-ordered sequence, resolving tempo markers into real-time deltas,
//! collecting channel statistics, pacing playback against a monotonic clock,
//! and decoding channel-voice messages into note instructions.

pub mod dispatch;
pub mod events;
pub mod merge;
pub mod schedule;
pub mod stats;
pub mod tempo;

use vstd::prelude::*;

verus! {

/// Law: an input with zero tracks runs through the whole pipeline as
/// emptiness. The merge of no tracks is the empty sequence, its delta form is
/// empty, its statistics count nothing, and its resolution emits nothing, so
/// playback has nothing to dispatch and nothing to wait for.
pub proof fn lemma_empty_input(ppq: int, tempo: int)
    ensures
        merge::merged_model(Seq::<Seq<events::Event>>::empty()) == Seq::<
            merge::Tagged,
        >::empty(),
        merge::untag(Seq::<merge::Tagged>::empty()) == Seq::<events::Event>::empty(),
        stats::note_on_count(Seq::<events::Event>::empty()) == 0,
        tempo::resolve_spec(Seq::<events::Event>::empty(), ppq, tempo, 0) == Seq::<
            (int, events::Payload),
        >::empty(),
{
    assert(merge::tag_all(Seq::<Seq<events::Event>>::empty()).len() == 0);
    assert(merge::untag(Seq::<merge::Tagged>::empty()) =~= Seq::<
        events::Event,
    >::empty());
}

} // verus!
