//! Tempo cancellation: turning tick deltas into real-time deltas.
//!
//! A running tempo state, microseconds per quarter note, starts at an
//! injectable default and changes only when a tempo marker is consumed. Every
//! delta is converted under the tempo in force *before* the event it belongs
//! to, so a marker's own offset is still governed by the old tempo and the
//! new tempo takes effect only for ticks after the marker. Markers are
//! removed from the output; the time they occupy is folded into the delta of
//! the next emitted event.

use vstd::prelude::*;
use vstd::arithmetic::div_mod::{lemma_div_nonincreasing, lemma_div_pos_is_pos};
use vstd::arithmetic::mul::{lemma_mul_inequality, lemma_mul_upper_bound};
use crate::events::{ErrorKind, Event, Payload, TimedEvent};
use crate::merge::{lemma_total_ticks_nonneg, lemma_total_ticks_step, lemma_total_ticks_take_le, ticks_fit, total_ticks};

verus! {

/// The nanoseconds that `delta` ticks occupy at `tempo` microseconds per
/// quarter note and `ppq` ticks per quarter note, rounded down.
pub open spec fn segment_ns(delta: int, tempo: int, ppq: int) -> int {
    (delta * tempo * 1000) / ppq
}

/// Whether the sequence holds a tempo marker with a zero value.
pub open spec fn has_zero_tempo(s: Seq<Event>) -> bool {
    exists|i: int|
        0 <= i < s.len() && #[trigger] s[i].payload == (Payload::Tempo {
            micros_per_quarter: 0u32,
        })
}

/// The resolved form of a sequence, as pairs of nanosecond delta and payload:
/// `tempo` is the tempo in force at its start, `carry` the time already
/// accumulated by consumed markers and still owed to the next emitted event.
pub open spec fn resolve_spec(s: Seq<Event>, ppq: int, tempo: int, carry: int) -> Seq<
    (int, Payload),
>
    decreases s.len(),
{
    if s.len() == 0 {
        Seq::empty()
    } else {
        let t = carry + segment_ns(s[0].delta as int, tempo, ppq);
        match s[0].payload {
            Payload::Tempo { micros_per_quarter } => resolve_spec(
                s.drop_first(),
                ppq,
                micros_per_quarter as int,
                t,
            ),
            _ => seq![(t, s[0].payload)] + resolve_spec(s.drop_first(), ppq, tempo, 0),
        }
    }
}

/// The resolved deltas and payloads an output vector carries.
pub open spec fn timed_view(out: Seq<TimedEvent>) -> Seq<(int, Payload)> {
    out.map_values(|e: TimedEvent| (e.delta_ns as int, e.payload))
}

/// One conversion step stays under `delta` ticks' worth of the largest
/// representable tempo.
proof fn lemma_segment_ns_bound(delta: int, tempo: int, ppq: int)
    requires
        0 <= delta,
        0 <= tempo <= u32::MAX,
        1 <= ppq,
    ensures
        0 <= segment_ns(delta, tempo, ppq) <= delta * (u32::MAX * 1000),
{
    lemma_mul_upper_bound(delta, delta, tempo, u32::MAX as int);
    lemma_mul_inequality(delta * tempo, delta * (u32::MAX as int), 1000);
    assert(delta * (u32::MAX as int) * 1000 == delta * (u32::MAX * 1000))
        by (nonlinear_arith);
    assert(delta * tempo >= 0) by (nonlinear_arith)
        requires
            delta >= 0,
            tempo >= 0,
    ;
    lemma_div_nonincreasing(delta * tempo * 1000, ppq);
    if delta * tempo * 1000 > 0 {
        lemma_div_pos_is_pos(delta * tempo * 1000, ppq);
    } else {
        assert(delta * tempo * 1000 == 0 || delta * tempo * 1000 > 0);
    }
}

/// Resolves a merged tick-delta sequence into real-time deltas. Succeeds if
/// and only if the initial tempo and every tempo marker are nonzero; a zero
/// tempo anywhere is rejected eagerly as `InvalidTempo`, before any playback
/// could begin. On success the output is exactly the resolved form of the
/// input under the given pulses-per-quarter constant and initial tempo.
pub fn resolve_tempo(merged: &Vec<Event>, ppq: u16, default_tempo: u32) -> (r: Result<
    Vec<TimedEvent>,
    ErrorKind,
>)
    requires
        ppq >= 1,
        ticks_fit(merged@),
    ensures
        match r {
            Ok(out) => default_tempo != 0 && !has_zero_tempo(merged@) && timed_view(out@)
                == resolve_spec(merged@, ppq as int, default_tempo as int, 0),
            Err(e) => e == ErrorKind::InvalidTempo && (default_tempo == 0
                || has_zero_tempo(merged@)),
        },
{
    if default_tempo == 0 {
        return Err(ErrorKind::InvalidTempo);
    }
    let ghost full = resolve_spec(merged@, ppq as int, default_tempo as int, 0);
    let mut out: Vec<TimedEvent> = Vec::new();
    let mut tempo: u32 = default_tempo;
    let mut carry: u128 = 0;
    let mut i: usize = 0;
    proof {
        assert(merged@.skip(0) =~= merged@);
        assert(Seq::<(int, Payload)>::empty() + full =~= full);
        assert(merged@.take(0) =~= Seq::<Event>::empty());
    }
    while i < merged.len()
        invariant
            0 <= i <= merged@.len(),
            ppq >= 1,
            tempo >= 1,
            ticks_fit(merged@),
            full == resolve_spec(merged@, ppq as int, default_tempo as int, 0),
            carry <= total_ticks(merged@.take(i as int)) * (u32::MAX * 1000),
            forall|j: int|
                0 <= j < i ==> !(#[trigger] merged@[j].payload == (Payload::Tempo {
                    micros_per_quarter: 0u32,
                })),
            timed_view(out@) + resolve_spec(
                merged@.skip(i as int),
                ppq as int,
                tempo as int,
                carry as int,
            ) == full,
        decreases merged@.len() - i,
    {
        let e = merged[i];
        let ghost rest = merged@.skip(i as int);
        proof {
            assert(rest[0] == merged@[i as int]);
            assert(rest.drop_first() =~= merged@.skip(i as int + 1));
            lemma_segment_ns_bound(e.delta as int, tempo as int, ppq as int);
            lemma_total_ticks_step(merged@, i as int);
            lemma_total_ticks_take_le(merged@, i as int + 1);
            lemma_total_ticks_nonneg(merged@.take(i as int));
            lemma_total_ticks_nonneg(merged@.take(i as int + 1));
            // carry + segment stays under the accumulated tick bound
            lemma_mul_inequality(
                total_ticks(merged@.take(i as int + 1)),
                u64::MAX as int,
                u32::MAX * 1000,
            );
            assert((total_ticks(merged@.take(i as int)) + e.delta) * (u32::MAX * 1000)
                == total_ticks(merged@.take(i as int)) * (u32::MAX * 1000) + e.delta * (
            u32::MAX * 1000)) by (nonlinear_arith);
            assert(e.delta as int * (tempo as int) <= u64::MAX as int * (u32::MAX as int))
                by {
                lemma_mul_upper_bound(
                    e.delta as int,
                    u64::MAX as int,
                    tempo as int,
                    u32::MAX as int,
                );
            }
            assert(e.delta as int * (tempo as int) * 1000
                <= u64::MAX as int * (u32::MAX as int) * 1000) by {
                lemma_mul_inequality(
                    e.delta as int * (tempo as int),
                    u64::MAX as int * (u32::MAX as int),
                    1000,
                );
            }
        }
        let seg: u128 = (e.delta as u128) * (tempo as u128) * 1000 / (ppq as u128);
        proof {
            assert(seg as int == segment_ns(e.delta as int, tempo as int, ppq as int));
        }
        match e.payload {
            Payload::Tempo { micros_per_quarter } => {
                if micros_per_quarter == 0 {
                    proof {
                        assert(merged@[i as int].payload == (Payload::Tempo {
                            micros_per_quarter: 0u32,
                        }));
                    }
                    return Err(ErrorKind::InvalidTempo);
                }
                carry = carry + seg;
                tempo = micros_per_quarter;
            },
            _ => {
                let delta_ns: u128 = carry + seg;
                out.push(TimedEvent { delta_ns, payload: e.payload });
                proof {
                    assert(timed_view(out@) =~= timed_view(out@.drop_last()).push(
                        (delta_ns as int, e.payload),
                    ));
                    assert(timed_view(out@.drop_last()) + (seq![
                        (delta_ns as int, e.payload),
                    ] + resolve_spec(
                        merged@.skip(i as int + 1),
                        ppq as int,
                        tempo as int,
                        0,
                    )) =~= timed_view(out@) + resolve_spec(
                        merged@.skip(i as int + 1),
                        ppq as int,
                        tempo as int,
                        0,
                    ));
                }
                carry = 0;
            },
        }
        i = i + 1;
        proof {
            lemma_total_ticks_nonneg(merged@.take(i as int));
        }
    }
    proof {
        assert(merged@.skip(merged@.len() as int) =~= Seq::<Event>::empty());
        assert(timed_view(out@) + Seq::<(int, Payload)>::empty() =~= timed_view(out@));
        assert(merged@.take(merged@.len() as int) =~= merged@);
    }
    Ok(out)
}

/// Law: resolution is purely functional. Two runs over the same merged
/// sequence with the same pulses-per-quarter constant and the same initial
/// tempo produce identical output; no hidden state leaks between runs.
pub proof fn lemma_resolution_idempotent(
    first: Seq<(int, Payload)>,
    second: Seq<(int, Payload)>,
    s: Seq<Event>,
    ppq: int,
    tempo: int,
)
    requires
        first == resolve_spec(s, ppq, tempo, 0),
        second == resolve_spec(s, ppq, tempo, 0),
    ensures
        first == second,
{
}

} // verus!
