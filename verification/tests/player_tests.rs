// Times are in microseconds: 0.5 s = 500000, 0.3 s = 300000,
// 0.1 s = 100000, 0.0005 s = 500.
use sky_piano::mapper::Mapper;
use sky_piano::midi::MidiEvent;
use sky_piano::player::{
    events_to_chords, join_keys, merge_chords, playback_targets, summarize, Chord,
};

fn make_mapper() -> Mapper {
    Mapper::default_positional_15()
}

fn ev(time: u128, note: u8, is_note_on: bool, velocity: u8) -> MidiEvent {
    MidiEvent { time, note, is_note_on, velocity }
}

fn keys(c: &Chord) -> Vec<&str> {
    c.keys.iter().map(|k| k.as_str()).collect()
}

#[test]
fn test_events_to_chords_simple() {
    let mapper = make_mapper();
    // Use positional notes 0-14 for Sky keys
    let events = vec![
        ev(0, 5, true, 100), // Maps to "h"
        ev(500000, 5, false, 0),
    ];

    let chords = events_to_chords(&events, &mapper);
    assert_eq!(chords.len(), 1);
    assert_eq!(chords[0].time, 0);
    assert_eq!(chords[0].duration, 500000);
    assert_eq!(keys(&chords[0]), vec!["h"]);
}

#[test]
fn test_events_to_chords_multiple_notes() {
    let mapper = make_mapper();
    let events = vec![
        // Two notes at same time: key 5 ("h") and key 9 (";")
        ev(0, 5, true, 100),
        ev(0, 9, true, 100),
        // Both off at same time
        ev(1000000, 5, false, 0),
        ev(1000000, 9, false, 0),
    ];

    let chords = events_to_chords(&events, &mapper);
    assert_eq!(chords.len(), 1);
    assert_eq!(keys(&chords[0]), vec!["h", ";"]);
    assert_eq!(chords[0].duration, 1000000);
}

#[test]
fn test_events_to_chords_unmapped_note() {
    let mapper = make_mapper();
    let events = vec![
        ev(0, 5, true, 100),  // Mapped to "h"
        ev(0, 15, true, 100), // Not in our 15-key mapping (0-14)
        ev(500000, 5, false, 0),
        ev(500000, 15, false, 0),
    ];

    let chords = events_to_chords(&events, &mapper);
    // Only note 5 ("h") should be in chord, 15 is not mapped
    assert_eq!(chords.len(), 1);
    assert_eq!(keys(&chords[0]), vec!["h"]);
}

#[test]
fn test_events_to_chords_sequential_notes() {
    let mapper = make_mapper();
    let events = vec![
        ev(0, 5, true, 100), // Maps to "h"
        ev(500000, 5, false, 0),
        ev(500000, 7, true, 100), // Maps to "k"
        ev(1000000, 7, false, 0),
    ];

    let chords = events_to_chords(&events, &mapper);
    assert_eq!(chords.len(), 2);
    assert_eq!(keys(&chords[0]), vec!["h"]);
    assert_eq!(keys(&chords[1]), vec!["k"]);
}

#[test]
fn test_merge_chords() {
    // Two chords at same time should merge
    let chords = vec![
        Chord::new(0, vec!["h".to_string()], 500000),
        Chord::new(0, vec!["j".to_string()], 500000),
    ];

    let merged = merge_chords(chords);
    assert_eq!(merged.len(), 1);
    assert_eq!(keys(&merged[0]), vec!["h", "j"]);
}

#[test]
fn test_merge_chords_near_same_time() {
    // Chords very close in time should merge (within a millisecond)
    let chords = vec![
        Chord::new(0, vec!["h".to_string()], 500000),
        Chord::new(500, vec!["j".to_string()], 500000), // Within tolerance
    ];

    let merged = merge_chords(chords);
    assert_eq!(merged.len(), 1);
    assert_eq!(keys(&merged[0]), vec!["h", "j"]);
}

#[test]
fn test_merge_chords_different_times() {
    let chords = vec![
        Chord::new(0, vec!["h".to_string()], 500000),
        Chord::new(100000, vec!["j".to_string()], 500000), // Different time
    ];

    let merged = merge_chords(chords);
    assert_eq!(merged.len(), 2);
}

#[test]
fn test_merge_chords_keeps_longest_duration() {
    let chords = vec![
        Chord::new(0, vec!["h".to_string()], 300000),
        Chord::new(0, vec!["j".to_string()], 500000), // Longer duration
    ];

    let merged = merge_chords(chords);
    assert_eq!(merged.len(), 1);
    assert_eq!(merged[0].duration, 500000);
}

#[test]
fn test_empty_events() {
    let mapper = make_mapper();
    let events: Vec<MidiEvent> = vec![];
    let chords = events_to_chords(&events, &mapper);
    assert!(chords.is_empty());
}

#[test]
fn test_note_off_without_note_on() {
    // Note off without matching note on should be ignored
    let mapper = make_mapper();
    let events = vec![ev(0, 60, false, 0)];

    let chords = events_to_chords(&events, &mapper);
    assert!(chords.is_empty());
}

#[test]
fn test_note_on_without_note_off() {
    // Note on without note off produces no chord: chords are made on note-off
    let mapper = make_mapper();
    let events = vec![ev(0, 60, true, 100)];

    let chords = events_to_chords(&events, &mapper);
    assert!(chords.is_empty());
}

#[test]
fn test_preview() {
    let chords = vec![
        Chord::new(0, vec!["h".to_string()], 500000),
        Chord::new(500000, vec!["j".to_string(), "k".to_string()], 300000),
    ];

    // The key columns of the preview lines
    assert_eq!(join_keys(&chords[0].keys, ", "), "h");
    assert_eq!(join_keys(&chords[1].keys, ", "), "j, k");
}

#[test]
fn merge_tolerance_is_a_millisecond() {
    // Exactly a millisecond apart: not merged.
    let chords = vec![
        Chord::new(0, vec!["h".to_string()], 5000),
        Chord::new(1000, vec!["j".to_string()], 5000),
    ];
    assert_eq!(merge_chords(chords).len(), 2);
    // Just under a millisecond apart: merged.
    let chords = vec![
        Chord::new(0, vec!["h".to_string()], 5000),
        Chord::new(999, vec!["j".to_string()], 5000),
    ];
    assert_eq!(merge_chords(chords).len(), 1);
}

#[test]
fn chords_of_sorted_events_have_nonnegative_durations() {
    let mapper = make_mapper();
    let events = vec![
        ev(0, 5, true, 100),
        ev(0, 7, true, 100),
        ev(0, 5, false, 0),
        ev(250000, 7, false, 0),
    ];
    let chords = events_to_chords(&events, &mapper);
    assert_eq!(chords.len(), 1);
    assert_eq!(keys(&chords[0]), vec!["h", "k"]);
    assert_eq!(chords[0].duration, 250000);
    assert!(chords.iter().all(|c| c.duration >= 0));
}

#[test]
fn merge_compares_with_group_start() {
    // Each chord is within tolerance of the previous one but the third is
    // not within tolerance of the group's first chord.
    let chords = vec![
        Chord::new(0, vec!["a".to_string()], 2500),
        Chord::new(500, vec!["b".to_string()], 3500),
        Chord::new(1000, vec!["c".to_string()], 1500),
    ];
    let merged = merge_chords(chords);
    assert_eq!(merged.len(), 2);
    assert_eq!(keys(&merged[0]), vec!["a", "b"]);
    assert_eq!(merged[0].duration, 3500);
    assert_eq!(merged[1].time, 1000);
    assert_eq!(merged[1].duration, 1500);
}

#[test]
fn first_group_duration_starts_at_zero() {
    let chords = vec![Chord::new(2500, vec!["a".to_string()], -2000)];
    let merged = merge_chords(chords);
    assert_eq!(merged[0].duration, 0);
    assert_eq!(merged[0].time, 2500);
}

#[test]
fn empty_keyed_group_is_dropped() {
    let chords = vec![
        Chord::new(0, vec!["a".to_string()], 500),
        Chord::new(250000, vec![], 500),
        Chord::new(500000, vec!["c".to_string(), "d".to_string()], 1000),
    ];
    let merged = merge_chords(chords);
    assert_eq!(merged.len(), 2);
    assert_eq!(keys(&merged[1]), vec!["c", "d"]);
}

#[test]
fn chords_sorted_by_start_and_restarted_notes() {
    let mapper = make_mapper();
    let events = vec![
        ev(0, 5, true, 100),
        ev(50000, 7, true, 100),
        ev(150000, 7, false, 0),
        // note 5 restarts before its note-off: the later start counts
        ev(200000, 5, true, 90),
        ev(450000, 5, false, 0),
    ];
    let chords = events_to_chords(&events, &mapper);
    assert_eq!(chords.len(), 2);
    assert_eq!((chords[0].time, chords[0].duration, keys(&chords[0])), (50000, 100000, vec!["k"]));
    assert_eq!((chords[1].time, chords[1].duration, keys(&chords[1])), (200000, 250000, vec!["h"]));
}

#[test]
fn summary_counts() {
    let mapper = make_mapper();
    let events = vec![
        ev(0, 9, true, 100),
        ev(0, 5, true, 100),
        ev(500000, 5, false, 0),
        ev(500000, 9, false, 0),
        ev(500000, 5, true, 100),
        ev(800000, 5, false, 0),
    ];
    let chords = events_to_chords(&events, &mapper);
    let s = summarize(&events, &chords);
    assert_eq!(s.total_notes, 3);
    assert_eq!(s.unique_notes, vec![5, 9]);
    assert_eq!(s.chord_count, 2);
    assert_eq!(s.multi_key_chords, 1);
    assert_eq!(s.total_duration, 800000);
    let empty = summarize(&[], &[]);
    assert_eq!(empty.total_duration, 0);
    assert!(empty.unique_notes.is_empty());
}

#[test]
fn playback_starts_first_chord_at_once() {
    let chords = vec![
        Chord::new(500000, vec!["h".to_string()], 5000),
        Chord::new(1500000, vec!["j".to_string()], 5000),
        Chord::new(1500000, vec!["k".to_string()], 5000),
    ];
    assert_eq!(playback_targets(&chords), vec![0, 1000000, 1000000]);
    // A chord before the first one is due at once.
    let chords = vec![
        Chord::new(2000, vec!["h".to_string()], 5000),
        Chord::new(1000, vec!["j".to_string()], 5000),
    ];
    assert_eq!(playback_targets(&chords), vec![0, 0]);
    assert!(playback_targets(&vec![]).is_empty());
}

#[test]
fn join_keys_without_separator() {
    let k = vec!["k".to_string(), "j".to_string()];
    assert_eq!(join_keys(&k, ""), "kj");
    assert_eq!(join_keys(&vec![], ", "), "");
}

#[test]
fn velocity_is_ignored() {
    let mapper = make_mapper();
    let soft = vec![ev(0, 5, true, 1), ev(500000, 5, false, 0)];
    let loud = vec![ev(0, 5, true, 127), ev(500000, 5, false, 0)];
    let a = events_to_chords(&soft, &mapper);
    let b = events_to_chords(&loud, &mapper);
    assert_eq!(a.len(), b.len());
    assert_eq!((a[0].time, a[0].duration, keys(&a[0])), (b[0].time, b[0].duration, keys(&b[0])));
}
