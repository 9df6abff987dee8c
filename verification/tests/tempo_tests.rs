use sky_piano::tempo::{tick_to_micros, TempoChange, DEFAULT_MICROS_PER_QUARTER};

#[test]
fn default_tempo_is_120_bpm() {
    assert_eq!(DEFAULT_MICROS_PER_QUARTER, 500_000);
    // One quarter note is half a second.
    assert_eq!(tick_to_micros(&vec![], 96, 96), 500_000);
    assert_eq!(tick_to_micros(&vec![], 96, 0), 0);
    // Whole microseconds, rounded down: 5 * 500000 / 480 = 5208.33...
    assert_eq!(tick_to_micros(&vec![], 480, 5), 5208);
}

#[test]
fn tempo_changes_apply_from_their_tick() {
    let tempos = vec![
        TempoChange { tick: 96, micros_per_quarter: 250_000 },
        TempoChange { tick: 192, micros_per_quarter: 1_000_000 },
    ];
    assert_eq!(tick_to_micros(&tempos, 96, 48), 250_000);
    assert_eq!(tick_to_micros(&tempos, 96, 96), 500_000);
    assert_eq!(tick_to_micros(&tempos, 96, 144), 625_000);
    assert_eq!(tick_to_micros(&tempos, 96, 192), 750_000);
    assert_eq!(tick_to_micros(&tempos, 96, 288), 1_750_000);
}

#[test]
fn later_ticks_are_never_earlier() {
    let tempos = vec![
        TempoChange { tick: 10, micros_per_quarter: 1 },
        TempoChange { tick: 20, micros_per_quarter: 16_000_000 },
    ];
    let times: Vec<u128> = (0..40).map(|t| tick_to_micros(&tempos, 7, t)).collect();
    assert!(times.windows(2).all(|w| w[0] <= w[1]));
}

#[test]
fn tempo_at_tick_zero_replaces_the_default() {
    let tempos = vec![TempoChange { tick: 0, micros_per_quarter: 1_000_000 }];
    assert_eq!(tick_to_micros(&tempos, 4, 4), 1_000_000);
}
