use midi_player::events::{ErrorKind, Event, Payload};
use midi_player::tempo::resolve_tempo;

fn note_on(delta: u64) -> Event {
    Event { delta, payload: Payload::ChannelVoice { status: 0x90, data1: 60, data2: 64 } }
}

fn tempo_marker(delta: u64, micros_per_quarter: u32) -> Event {
    Event { delta, payload: Payload::Tempo { micros_per_quarter } }
}

const PPQ: u16 = 480;
const DEFAULT_TEMPO: u32 = 500000;

#[test]
fn marker_offset_resolves_under_old_tempo() {
    // A marker at tick 480: one quarter note at the default 500000 us/quarter
    // is 0.5 s, and the note right at the marker adds nothing more.
    let merged = vec![tempo_marker(480, 1000000), note_on(0)];
    let resolved = resolve_tempo(&merged, PPQ, DEFAULT_TEMPO).unwrap();
    assert_eq!(resolved.len(), 1);
    assert_eq!(resolved[0].delta_ns, 500_000_000);
}

#[test]
fn ticks_after_marker_resolve_under_new_tempo() {
    // A marker at tick 0 switching to 1000000 us/quarter: the note one
    // quarter note later takes a full second.
    let merged = vec![tempo_marker(0, 1000000), note_on(480)];
    let resolved = resolve_tempo(&merged, PPQ, DEFAULT_TEMPO).unwrap();
    assert_eq!(resolved.len(), 1);
    assert_eq!(resolved[0].delta_ns, 1_000_000_000);
}

#[test]
fn marker_at_480_note_at_960_resolves_to_half_plus_one_second() {
    // The marker's own 480 ticks resolve under the old tempo to 0.5 s; the
    // note's 480 ticks after it resolve under the new tempo to 1.0 s; the
    // consumed marker folds its time into the note's delta.
    let merged = vec![tempo_marker(480, 1000000), note_on(480)];
    let resolved = resolve_tempo(&merged, PPQ, DEFAULT_TEMPO).unwrap();
    assert_eq!(resolved.len(), 1);
    assert_eq!(resolved[0].delta_ns, 1_500_000_000);
    assert_eq!(
        resolved[0].payload,
        Payload::ChannelVoice { status: 0x90, data1: 60, data2: 64 }
    );
}

#[test]
fn no_marker_uses_default_tempo_throughout() {
    let merged = vec![note_on(480), note_on(960)];
    let resolved = resolve_tempo(&merged, PPQ, DEFAULT_TEMPO).unwrap();
    assert_eq!(resolved.len(), 2);
    assert_eq!(resolved[0].delta_ns, 500_000_000);
    assert_eq!(resolved[1].delta_ns, 1_000_000_000);
}

#[test]
fn simultaneous_markers_apply_in_encounter_order() {
    // Two markers at delta 0: the second sees the first's tempo for its own
    // (zero-length) offset, and the last one wins for what follows.
    let merged = vec![
        tempo_marker(0, 1000000),
        tempo_marker(0, 250000),
        note_on(480),
    ];
    let resolved = resolve_tempo(&merged, PPQ, DEFAULT_TEMPO).unwrap();
    assert_eq!(resolved.len(), 1);
    assert_eq!(resolved[0].delta_ns, 250_000_000);
}

#[test]
fn zero_tempo_marker_is_rejected() {
    let merged = vec![tempo_marker(0, 0), note_on(480)];
    let r = resolve_tempo(&merged, PPQ, DEFAULT_TEMPO);
    assert_eq!(r, Err(ErrorKind::InvalidTempo));
}

#[test]
fn zero_default_tempo_is_rejected() {
    let merged = vec![note_on(480)];
    let r = resolve_tempo(&merged, PPQ, 0);
    assert_eq!(r, Err(ErrorKind::InvalidTempo));
}

#[test]
fn resolution_twice_yields_identical_output() {
    let merged = vec![
        tempo_marker(480, 1000000),
        note_on(480),
        Event { delta: 7, payload: Payload::Other },
        note_on(0),
    ];
    let first = resolve_tempo(&merged, PPQ, DEFAULT_TEMPO).unwrap();
    let second = resolve_tempo(&merged, PPQ, DEFAULT_TEMPO).unwrap();
    assert_eq!(first, second);
}
