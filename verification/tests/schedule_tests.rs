use midi_player::schedule::PlaybackClock;

#[test]
fn new_clock_starts_at_zero_virtual_time() {
    let clock = PlaybackClock::new();
    assert_eq!(clock.virtual_ns, 0);
}

#[test]
fn zero_delta_never_waits_and_keeps_virtual_time() {
    let mut clock = PlaybackClock::new();
    let wait = clock.advance(0, 12345);
    assert_eq!(wait, None);
    assert_eq!(clock.virtual_ns, 0);
}

#[test]
fn ahead_of_schedule_waits_exactly_the_lag() {
    let mut clock = PlaybackClock::new();
    let wait = clock.advance(100_000_000, 20_000_000);
    assert_eq!(wait, Some(80_000_000));
    assert_eq!(clock.virtual_ns, 100_000_000);
}

#[test]
fn behind_schedule_never_waits() {
    let mut clock = PlaybackClock::new();
    let wait = clock.advance(100_000_000, 1_000_000_000);
    assert_eq!(wait, None);
    assert_eq!(clock.virtual_ns, 100_000_000);
}

#[test]
fn dispatch_times_are_monotone_over_a_trace() {
    // Deltas 0 s, 0.1 s, 0 s, 0.2 s in nanoseconds, against a fake monotonic
    // clock: each reading is taken at or after the previous dispatch instant.
    let deltas: Vec<u128> = vec![0, 100_000_000, 0, 200_000_000];
    let readings: Vec<u128> = vec![0, 20_000_000, 100_000_000, 150_000_000];
    let mut clock = PlaybackClock::new();
    let mut dispatches: Vec<u128> = Vec::new();
    for (d, e) in deltas.iter().zip(readings.iter()) {
        let wait = clock.advance(*d, *e);
        let dispatch = e + wait.unwrap_or(0);
        // a reading is never earlier than the previous dispatch
        if let Some(prev) = dispatches.last() {
            assert!(*e >= *prev);
        }
        dispatches.push(dispatch);
    }
    assert_eq!(dispatches, vec![0, 100_000_000, 100_000_000, 300_000_000]);
    // non-decreasing, and never earlier than the accumulated virtual time
    let mut virtual_time: u128 = 0;
    for (k, d) in deltas.iter().enumerate() {
        virtual_time += d;
        assert!(dispatches[k] >= virtual_time);
        if k > 0 {
            assert!(dispatches[k] >= dispatches[k - 1]);
        }
    }
}
