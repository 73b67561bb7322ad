use midi_player::events::{Event, Payload};
use midi_player::merge::{merge_tracks, track_fits, tracks_fit};
use midi_player::stats::collect_statistics;
use midi_player::tempo::resolve_tempo;

fn voice(status: u8, data1: u8, data2: u8) -> Payload {
    Payload::ChannelVoice { status, data1, data2 }
}

fn ev(delta: u64, payload: Payload) -> Event {
    Event { delta, payload }
}

#[test]
fn merge_orders_by_absolute_tick() {
    // track 0: events at absolute ticks 0 and 10; track 1: at ticks 5 and 10.
    let t0 = vec![ev(0, voice(0x90, 1, 1)), ev(10, voice(0x90, 2, 2))];
    let t1 = vec![ev(5, voice(0x91, 3, 3)), ev(5, voice(0x91, 4, 4))];
    let merged = merge_tracks(&vec![t0, t1]);
    let deltas: Vec<u64> = merged.iter().map(|e| e.delta).collect();
    assert_eq!(deltas, vec![0, 5, 5, 0]);
    // the tie at tick 10 keeps track order: track 0's event first.
    assert_eq!(merged[0].payload, voice(0x90, 1, 1));
    assert_eq!(merged[1].payload, voice(0x91, 3, 3));
    assert_eq!(merged[2].payload, voice(0x90, 2, 2));
    assert_eq!(merged[3].payload, voice(0x91, 4, 4));
}

#[test]
fn merge_accumulated_deltas_reconstruct_absolute_ticks() {
    let t0 = vec![ev(3, voice(0x90, 10, 1)), ev(4, voice(0x90, 11, 1))];
    let t1 = vec![ev(1, voice(0x91, 20, 1)), ev(1, voice(0x91, 21, 1))];
    let merged = merge_tracks(&vec![t0, t1]);
    let mut acc: u64 = 0;
    let mut absolute = Vec::new();
    for e in &merged {
        acc += e.delta;
        absolute.push(acc);
    }
    let mut expected = vec![3u64, 7, 1, 2];
    expected.sort();
    assert_eq!(absolute, expected);
}

#[test]
fn merge_keeps_order_within_one_track_at_equal_ticks() {
    let t0 = vec![
        ev(0, voice(0x90, 1, 1)),
        ev(0, voice(0x90, 2, 2)),
        ev(0, voice(0x90, 3, 3)),
    ];
    let merged = merge_tracks(&vec![t0]);
    assert_eq!(merged.len(), 3);
    assert_eq!(merged[0].payload, voice(0x90, 1, 1));
    assert_eq!(merged[1].payload, voice(0x90, 2, 2));
    assert_eq!(merged[2].payload, voice(0x90, 3, 3));
}

#[test]
fn merge_handles_largest_single_delta() {
    let t0 = vec![ev(u64::MAX, voice(0x90, 1, 1))];
    let merged = merge_tracks(&vec![t0]);
    assert_eq!(merged.len(), 1);
    assert_eq!(merged[0].delta, u64::MAX);
}

#[test]
fn overflowing_tick_positions_are_detected() {
    let good = vec![ev(u64::MAX, voice(0x90, 1, 1))];
    assert!(track_fits(&good));
    let bad = vec![ev(u64::MAX, voice(0x90, 1, 1)), ev(1, voice(0x90, 2, 2))];
    assert!(!track_fits(&bad));
    let sets = vec![vec![ev(5, voice(0x90, 1, 1))], bad];
    assert!(!tracks_fit(&sets));
}

#[test]
fn zero_tracks_yield_empty_pipeline() {
    let merged = merge_tracks(&vec![]);
    assert!(merged.is_empty());
    let stats = collect_statistics(&merged);
    assert_eq!(stats.note_count(), 0);
    let resolved = resolve_tempo(&merged, 480, 500000).unwrap();
    assert!(resolved.is_empty());
}
