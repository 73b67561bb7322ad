//! The drift-correcting playback pacing decisions.
//!
//! The caller owns the real clock and the real sleep; this module owns the
//! decision. For each event the caller reads the monotonic clock (nanoseconds
//! since playback began) and asks [`PlaybackClock::advance`] how long to
//! block before dispatching. The scheduler only waits when ahead of schedule
//! and silently catches up when behind; it never drops or reorders events.

use vstd::prelude::*;

verus! {

/// The scheduler's state: the accumulated virtual time in nanoseconds, the
/// point playback should have reached. Created at playback start, advanced
/// once per event, discarded at playback end.
#[derive(Clone, Copy, Debug, PartialEq, Eq, Structural)]
pub struct PlaybackClock {
    pub virtual_ns: u128,
}

/// How long the scheduler blocks before dispatching: the positive part of the
/// lag between the new virtual time and the elapsed wall-clock time, and
/// nothing at all for a zero delta.
pub open spec fn wait_len(vt: int, delta: int, elapsed: int) -> int {
    if delta != 0 && vt + delta > elapsed {
        vt + delta - elapsed
    } else {
        0
    }
}

impl PlaybackClock {
    /// A fresh clock with no virtual time accumulated.
    pub fn new() -> (r: Self)
        ensures
            r.virtual_ns == 0,
    {
        PlaybackClock { virtual_ns: 0 }
    }

    /// Advances virtual time by one event's delta and decides the wait.
    /// `elapsed_ns` is the caller's monotonic clock reading, nanoseconds
    /// since playback began. Returns `Some(w)` when the caller must block
    /// for `w` nanoseconds before dispatching, `None` when it must dispatch
    /// immediately.
    pub fn advance(&mut self, delta_ns: u128, elapsed_ns: u128) -> (wait: Option<u128>)
        requires
            old(self).virtual_ns + delta_ns <= u128::MAX,
        ensures
            final(self).virtual_ns == old(self).virtual_ns + delta_ns,
            (match wait {
                Some(w) => w as int,
                None => 0int,
            }) == wait_len(
                old(self).virtual_ns as int,
                delta_ns as int,
                elapsed_ns as int,
            ),
            (match wait {
                Some(w) => delta_ns != 0 && old(self).virtual_ns + delta_ns > elapsed_ns && w
                    == old(self).virtual_ns + delta_ns - elapsed_ns,
                None => delta_ns == 0 || old(self).virtual_ns + delta_ns <= elapsed_ns,
            }),
    {
        if delta_ns == 0 {
            None
        } else {
            self.virtual_ns = self.virtual_ns + delta_ns;
            if self.virtual_ns > elapsed_ns {
                Some(self.virtual_ns - elapsed_ns)
            } else {
                None
            }
        }
    }
}

/// The virtual time before event `i`: the sum of the deltas of the events
/// before it.
pub open spec fn virtual_at(deltas: Seq<int>, i: int) -> int
    decreases i,
{
    if i <= 0 {
        0
    } else {
        virtual_at(deltas, i - 1) + deltas[i - 1]
    }
}

/// The wall-clock instant at which event `i` is dispatched: the clock reading
/// taken when the event was reached, plus the wait the scheduler chose.
pub open spec fn dispatch_at(deltas: Seq<int>, elapsed: Seq<int>, i: int) -> int {
    elapsed[i] + wait_len(virtual_at(deltas, i), deltas[i], elapsed[i])
}

/// A well-formed playback trace: `elapsed[i]` is the monotonic clock reading
/// taken when event `i` is reached, so it is nonnegative and never earlier
/// than the previous event's dispatch instant; deltas are nonnegative.
pub open spec fn clock_trace_ok(deltas: Seq<int>, elapsed: Seq<int>) -> bool {
    &&& elapsed.len() == deltas.len()
    &&& (forall|i: int| 0 <= i < deltas.len() ==> deltas[i] >= 0)
    &&& (forall|i: int| 0 <= i < elapsed.len() ==> elapsed[i] >= 0)
    &&& (forall|i: int|
        0 < i < elapsed.len() ==> elapsed[i] >= dispatch_at(deltas, elapsed, i - 1))
}

/// Law: over any well-formed playback trace, dispatch instants never precede
/// the event's accumulated virtual time, never precede the clock reading that
/// produced them, and never decrease from one event to the next.
pub proof fn lemma_scheduler_monotone(deltas: Seq<int>, elapsed: Seq<int>, i: int)
    requires
        clock_trace_ok(deltas, elapsed),
        0 <= i < deltas.len(),
    ensures
        dispatch_at(deltas, elapsed, i) >= virtual_at(deltas, i + 1),
        dispatch_at(deltas, elapsed, i) >= elapsed[i],
        i > 0 ==> dispatch_at(deltas, elapsed, i) >= dispatch_at(deltas, elapsed, i - 1),
    decreases i,
{
    if i > 0 {
        lemma_scheduler_monotone(deltas, elapsed, i - 1);
    }
}

} // verus!
