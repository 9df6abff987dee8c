use sky_piano::midi::{
    note_name, parse_midi_bytes, read_u16be, read_u32be, read_variable_length, MidiError,
    MidiEvent,
};
use sky_piano::tempo::TempoChange;

fn invalid_message(r: &Result<sky_piano::midi::MidiSong, MidiError>) -> String {
    match r {
        Err(MidiError::InvalidMidi(m)) => m.clone(),
        _ => panic!("expected an InvalidMidi error"),
    }
}

#[test]
fn test_read_variable_length() {
    // 0x00 -> 0
    let (val, len) = read_variable_length(&[0x00]).unwrap();
    assert_eq!(val, 0);
    assert_eq!(len, 1);

    // 0x7F -> 127
    let (val, len) = read_variable_length(&[0x7F]).unwrap();
    assert_eq!(val, 127);
    assert_eq!(len, 1);

    // 0x81 0x00 -> 128
    let (val, len) = read_variable_length(&[0x81, 0x00]).unwrap();
    assert_eq!(val, 128);
    assert_eq!(len, 2);

    // 0x81 0x7F -> 255
    let (val, len) = read_variable_length(&[0x81, 0x7F]).unwrap();
    assert_eq!(val, 255);
    assert_eq!(len, 2);

    // 0x82 0x00 0x00 -> 256 (2 bytes consumed - 0x00 terminates)
    let (val, len) = read_variable_length(&[0x82, 0x00, 0x00]).unwrap();
    assert_eq!(val, 256);
    assert_eq!(len, 2);

    // 0x81 0x80 0x00 -> 16384 (3 bytes: 1<<14 | 0<<7 | 0)
    let (val, len) = read_variable_length(&[0x81, 0x80, 0x00]).unwrap();
    assert_eq!(val, 16384);
    assert_eq!(len, 3);
}

#[test]
fn test_note_name() {
    assert_eq!(note_name(60), "C4"); // Middle C
    assert_eq!(note_name(61), "C#4");
    assert_eq!(note_name(69), "A4"); // A440
    assert_eq!(note_name(72), "C5");
    assert_eq!(note_name(48), "C3");
    assert_eq!(note_name(0), "C-1");
}

#[test]
fn test_read_u16be() {
    assert_eq!(read_u16be(&[0x00, 0x01]), 1);
    assert_eq!(read_u16be(&[0x01, 0x00]), 256);
    assert_eq!(read_u16be(&[0x00, 0x06]), 6);
}

#[test]
fn test_read_u32be() {
    assert_eq!(read_u32be(&[0x00, 0x00, 0x00, 0x01]), 1);
    assert_eq!(read_u32be(&[0x00, 0x00, 0x01, 0x00]), 256);
    assert_eq!(read_u32be(&[0x00, 0x00, 0x06, 0x00]), 1536);
}

#[test]
fn test_invalid_midi_too_short() {
    let result = parse_midi_bytes(&[]);
    assert!(result.is_err());

    let result = parse_midi_bytes(&[0, 1, 2]);
    assert!(result.is_err());
}

#[test]
fn test_invalid_midi_wrong_header() {
    let data = b"MTrk\x00\x00\x00\x00";
    let result = parse_midi_bytes(data);
    assert!(result.is_err());
}

#[test]
fn test_simple_midi_parsing() {
    // Create a minimal valid MIDI file (format 0, 1 track)
    let data = vec![
        // MThd
        0x4D, 0x54, 0x68, 0x64, // "MThd"
        0x00, 0x00, 0x00, 0x06, // header length = 6
        0x00, 0x00, // format = 0
        0x00, 0x01, // num tracks = 1
        0x00, 0x60, // division = 96 ticks/quarter note
        // MTrk
        0x4D, 0x54, 0x72, 0x6B, // "MTrk"
        0x00, 0x00, 0x00, 0x0B, // track length = 11
        // Delta time 0, Note On channel 0, note 60, velocity 64
        0x00, 0x90, 0x3C, 0x40,
        // Delta time 96 (1 quarter note), Note Off channel 0, note 60, velocity 0
        0x60, 0x80, 0x3C, 0x00, // End of track
        0x00, 0xFF, 0x2F, 0x00,
    ];

    let result = parse_midi_bytes(&data);
    assert!(result.is_ok());

    let song = result.unwrap();
    let events = song.events;
    assert_eq!(events.len(), 2);

    // First event: note on at time 0
    assert_eq!(events[0].note, 60);
    assert!(events[0].is_note_on);
    assert_eq!(events[0].velocity, 64);

    // Second event: note off one quarter note later (96 ticks at 120 BPM = 0.5s)
    assert_eq!(events[1].note, 60);
    assert!(!events[1].is_note_on);
    assert_eq!(events[0].time, 0);
    assert_eq!(events[1].time, 500_000);
}

#[test]
fn test_note_on_velocity_zero_is_note_off() {
    // Note on with velocity 0 should be treated as note off
    let data = vec![
        0x4D, 0x54, 0x68, 0x64, // MThd
        0x00, 0x00, 0x00, 0x06, 0x00, 0x00, // format 0
        0x00, 0x01, // 1 track
        0x00, 0x60, // division 96
        0x4D, 0x54, 0x72, 0x6B, // MTrk
        0x00, 0x00, 0x00, 0x07, 0x00, 0x90, 0x3C, 0x00, // Note on with vel 0 = note off
        0x00, 0xFF, 0x2F, 0x00,
    ];

    let result = parse_midi_bytes(&data);
    assert!(result.is_ok());

    let events = result.unwrap().events;
    assert_eq!(events.len(), 1);
    assert!(!events[0].is_note_on); // Should be treated as note off
}

#[test]
fn test_unsupported_format() {
    let data = vec![
        0x4D, 0x54, 0x68, 0x64, 0x00, 0x00, 0x00, 0x06, 0x00,
        0x03, // format = 3 (unsupported)
        0x00, 0x01, 0x00, 0x60,
    ];

    let result = parse_midi_bytes(&data);
    assert!(matches!(result, Err(MidiError::UnsupportedFormat(3))));
}

#[test]
fn parse_reports_each_fault() {
    assert_eq!(invalid_message(&parse_midi_bytes(&[0, 1, 2])), "File too short");
    assert_eq!(
        invalid_message(&parse_midi_bytes(b"MTrk\x00\x00\x00\x06\x00\x00\x00\x01\x00\x60")),
        "Missing MThd header"
    );
    assert_eq!(
        invalid_message(&parse_midi_bytes(b"MThd\x00\x00\x00\x05\x00\x00\x00\x01\x00\x60")),
        "Header too short"
    );
    let mut bad_track = b"MThd\x00\x00\x00\x06\x00\x00\x00\x01\x00\x60".to_vec();
    bad_track.extend_from_slice(b"MTrX\x00\x00\x00\x00");
    assert_eq!(invalid_message(&parse_midi_bytes(&bad_track)), "Missing MTrk header");
    let mut long_track = b"MThd\x00\x00\x00\x06\x00\x00\x00\x01\x00\x60".to_vec();
    long_track.extend_from_slice(b"MTrk\x00\x00\x00\x09\x00\x90");
    assert_eq!(invalid_message(&parse_midi_bytes(&long_track)), "Track extends past file");
    let mut running = b"MThd\x00\x00\x00\x06\x00\x00\x00\x01\x00\x60".to_vec();
    running.extend_from_slice(b"MTrk\x00\x00\x00\x03\x00\x3C\x40");
    assert_eq!(
        invalid_message(&parse_midi_bytes(&running)),
        "Running status without previous status"
    );
    let mut vlq = b"MThd\x00\x00\x00\x06\x00\x00\x00\x01\x00\x60".to_vec();
    vlq.extend_from_slice(b"MTrk\x00\x00\x00\x04\x81\x81\x81\x81");
    assert_eq!(invalid_message(&parse_midi_bytes(&vlq)), "Variable length quantity too long");
    let mut cut = b"MThd\x00\x00\x00\x06\x00\x00\x00\x01\x00\x60".to_vec();
    cut.extend_from_slice(b"MTrk\x00\x00\x00\x02\x81\x81");
    assert_eq!(invalid_message(&parse_midi_bytes(&cut)), "Unexpected end of data");
}

#[test]
fn vlq_errors() {
    assert!(read_variable_length(&[]).is_err());
    assert!(read_variable_length(&[0x81]).is_err());
    assert!(read_variable_length(&[0x81, 0x81, 0x81, 0x81, 0x00]).is_err());
    assert_eq!(read_variable_length(&[0xFF, 0xFF, 0xFF, 0x7F]).unwrap(), (268435455, 4));
}

#[test]
fn parse_keeps_division_and_sorts_tracks() {
    // Format 1, two tracks, division 480. Track 1 plays note 62 at tick 10,
    // track 2 plays note 60 at tick 5 under running status.
    let mut data = b"MThd\x00\x00\x00\x06\x00\x01\x00\x02\x01\xE0".to_vec();
    data.extend_from_slice(b"MTrk\x00\x00\x00\x04\x0A\x90\x3E\x50");
    data.extend_from_slice(b"MTrk\x00\x00\x00\x08\x05\x90\x3C\x40\x03\x3C\x00\x00");
    let song = parse_midi_bytes(&data).unwrap();
    assert_eq!(song.division, 480);
    // At 120 BPM a tick is 500000 / 480 microseconds, rounded down.
    let times: Vec<u128> = song.events.iter().map(|e| e.time).collect();
    let notes: Vec<u8> = song.events.iter().map(|e| e.note).collect();
    assert_eq!(times, vec![5208, 8333, 10416]);
    assert_eq!(notes, vec![60, 60, 62]);
    assert!(song.events[0].is_note_on);
    assert!(!song.events[1].is_note_on);
    assert_eq!(song.events[2].velocity, 0x50);
}

#[test]
fn parse_skips_channel_messages_and_meta_events() {
    // Control change (2 data bytes), program change (1 data byte), a text
    // meta event of two bytes, then a note two ticks later.
    let mut data = b"MThd\x00\x00\x00\x06\x00\x00\x00\x01\x00\x60".to_vec();
    data.extend_from_slice(
        b"MTrk\x00\x00\x00\x11\x00\xB0\x07\x64\x00\xC0\x05\x00\xFF\x01\x02\x41\x42\x02\x90\x40\x30",
    );
    let song = parse_midi_bytes(&data).unwrap();
    assert_eq!(song.events.len(), 1);
    // 2 ticks at division 96 and 120 BPM: 10416.67 microseconds.
    assert_eq!(song.events[0].time, 10416);
    assert_eq!(song.events[0].note, 0x40);
    assert_eq!(song.events[0].velocity, 0x30);
    assert!(song.tempos.is_empty());
}

#[test]
fn tempo_meta_event_sets_event_times() {
    // Division 4; a set-tempo event of 1000000 microseconds per quarter
    // note, then a note-on 4 ticks later: one quarter note, one second.
    let data = vec![
        0x4D, 0x54, 0x68, 0x64, 0, 0, 0, 6, 0, 0, 0, 1, 0, 4, //
        0x4D, 0x54, 0x72, 0x6B, 0, 0, 0, 11, //
        0x00, 0xFF, 0x51, 0x03, 0x0F, 0x42, 0x40, //
        0x04, 0x90, 0x3C, 0x40,
    ];
    let song = parse_midi_bytes(&data).unwrap();
    assert_eq!(
        song.events,
        vec![MidiEvent { time: 1_000_000, note: 60, is_note_on: true, velocity: 64 }]
    );
    assert_eq!(song.tempos, vec![TempoChange { tick: 0, micros_per_quarter: 1_000_000 }]);
}

#[test]
fn text_meta_event_is_skipped_whole() {
    // A text meta event (type 0x01, length 2, "AB") before a note-on.
    let mut data = b"MThd\x00\x00\x00\x06\x00\x00\x00\x01\x00\x04".to_vec();
    data.extend_from_slice(b"MTrk\x00\x00\x00\x0A\x00\xFF\x01\x02\x41\x42\x00\x90\x3C\x40");
    let song = parse_midi_bytes(&data).unwrap();
    assert_eq!(
        song.events,
        vec![MidiEvent { time: 0, note: 60, is_note_on: true, velocity: 64 }]
    );
}

#[test]
fn system_exclusive_is_skipped_whole() {
    let mut data = b"MThd\x00\x00\x00\x06\x00\x00\x00\x01\x00\x60".to_vec();
    data.extend_from_slice(b"MTrk\x00\x00\x00\x0A\x00\xF0\x03\x7E\x7F\xF7\x00\x90\x3C\x40");
    let song = parse_midi_bytes(&data).unwrap();
    assert_eq!(song.events.len(), 1);
    assert_eq!(song.events[0].note, 60);
    assert_eq!(song.events[0].time, 0);
}

#[test]
fn tempo_change_in_the_middle_of_a_song() {
    // Division 96. Notes at ticks 96 and 192; at tick 96 the tempo becomes
    // 250000 microseconds per quarter note, so the second quarter note
    // lasts a quarter of a second.
    let mut data = b"MThd\x00\x00\x00\x06\x00\x00\x00\x01\x00\x60".to_vec();
    data.extend_from_slice(
        b"MTrk\x00\x00\x00\x0F\x60\x90\x3C\x40\x00\xFF\x51\x03\x03\xD0\x90\x60\x90\x3C\x00",
    );
    let song = parse_midi_bytes(&data).unwrap();
    let times: Vec<u128> = song.events.iter().map(|e| e.time).collect();
    assert_eq!(times, vec![500_000, 750_000]);
    assert_eq!(song.tempos, vec![TempoChange { tick: 96, micros_per_quarter: 250_000 }]);
}

#[test]
fn tempo_of_one_track_times_the_others() {
    // Format 1: the first track holds only the tempo (1 second per quarter
    // note), the second a note at tick 48 of division 96.
    let mut data = b"MThd\x00\x00\x00\x06\x00\x01\x00\x02\x00\x60".to_vec();
    data.extend_from_slice(b"MTrk\x00\x00\x00\x07\x00\xFF\x51\x03\x0F\x42\x40");
    data.extend_from_slice(b"MTrk\x00\x00\x00\x04\x30\x90\x3C\x40");
    let song = parse_midi_bytes(&data).unwrap();
    assert_eq!(song.events.len(), 1);
    assert_eq!(song.events[0].time, 500_000);
}

#[test]
fn events_of_equal_time_keep_track_order() {
    // Two tracks with a note at tick 0 each: the first track's comes first.
    let mut data = b"MThd\x00\x00\x00\x06\x00\x01\x00\x02\x00\x60".to_vec();
    data.extend_from_slice(b"MTrk\x00\x00\x00\x04\x00\x90\x3E\x40");
    data.extend_from_slice(b"MTrk\x00\x00\x00\x04\x00\x90\x3C\x40");
    let song = parse_midi_bytes(&data).unwrap();
    let notes: Vec<u8> = song.events.iter().map(|e| e.note).collect();
    assert_eq!(notes, vec![62, 60]);
}

#[test]
fn zero_division_needs_no_events() {
    let mut with_note = b"MThd\x00\x00\x00\x06\x00\x00\x00\x01\x00\x00".to_vec();
    with_note.extend_from_slice(b"MTrk\x00\x00\x00\x04\x00\x90\x3C\x40");
    assert_eq!(invalid_message(&parse_midi_bytes(&with_note)), "Division is zero");
    let mut empty = b"MThd\x00\x00\x00\x06\x00\x00\x00\x01\x00\x00".to_vec();
    empty.extend_from_slice(b"MTrk\x00\x00\x00\x04\x00\xFF\x2F\x00");
    let song = parse_midi_bytes(&empty).unwrap();
    assert!(song.events.is_empty());
}

#[test]
fn parse_stops_at_missing_tracks() {
    // Two tracks announced, none present: no events.
    let data = b"MThd\x00\x00\x00\x06\x00\x01\x00\x02\x00\x60";
    let song = parse_midi_bytes(data).unwrap();
    assert!(song.events.is_empty());
    assert_eq!(song.division, 96);
}

#[test]
fn note_names_of_high_octaves() {
    assert_eq!(note_name(127), "G9");
    assert_eq!(note_name(132), "C10");
    assert_eq!(note_name(255), "D#20");
    assert_eq!(note_name(11), "B-1");
}

#[test]
fn end_of_track_meta_event_is_skipped_by_its_length() {
    // An end-of-track meta event with length 0, then a note-on.
    let mut data = b"MThd\x00\x00\x00\x06\x00\x00\x00\x01\x00\x60".to_vec();
    data.extend_from_slice(b"MTrk\x00\x00\x00\x08\x00\xFF\x2F\x00\x00\x90\x3C\x40");
    let song = parse_midi_bytes(&data).unwrap();
    assert_eq!(song.events.len(), 1);
    assert_eq!(song.events[0].note, 60);
}

#[test]
fn meta_event_cut_off_before_its_length_ends_the_track() {
    // A note-on, then a text meta event whose length byte is missing.
    let mut data = b"MThd\x00\x00\x00\x06\x00\x00\x00\x01\x00\x60".to_vec();
    data.extend_from_slice(b"MTrk\x00\x00\x00\x07\x00\x90\x3C\x40\x00\xFF\x01");
    let song = parse_midi_bytes(&data).unwrap();
    assert_eq!(song.events.len(), 1);
    // A length of more than four bytes is still a fault.
    let mut data = b"MThd\x00\x00\x00\x06\x00\x00\x00\x01\x00\x60".to_vec();
    data.extend_from_slice(b"MTrk\x00\x00\x00\x07\x00\xFF\x01\x81\x81\x81\x81");
    assert_eq!(invalid_message(&parse_midi_bytes(&data)), "Variable length quantity too long");
}
