use sky_piano::mapper::{parse_note_number, Mapper, MappingConfig};

#[test]
fn test_default_chromatic_15() {
    let mapper = Mapper::default_chromatic_15();

    // Test a few known mappings
    assert_eq!(mapper.note_to_key(60), Some("h")); // Middle C
    assert_eq!(mapper.note_to_key(61), Some("j")); // C#
    assert_eq!(mapper.note_to_key(64), Some(";")); // E
    assert_eq!(mapper.note_to_key(72), Some("i")); // C2

    // Unmapped note
    assert_eq!(mapper.note_to_key(0), None);
    assert_eq!(mapper.note_to_key(127), None);
    assert_eq!(mapper.note_to_key(75), None); // F2 not mapped
}

#[test]
fn test_mapper_from_config() {
    let config = MappingConfig {
        mapping: vec![
            ("60".to_string(), "a".to_string()),
            ("61".to_string(), "s".to_string()),
        ],
    };

    let mapper = Mapper::from_config(&config);
    assert_eq!(mapper.note_to_key(60), Some("a"));
    assert_eq!(mapper.note_to_key(61), Some("s"));
    assert_eq!(mapper.note_to_key(62), None);
}

#[test]
fn test_empty_mapping() {
    let config = MappingConfig::default();
    let mapper = Mapper::from_config(&config);

    assert_eq!(mapper.note_to_key(60), None);
}

#[test]
fn test_invalid_note_in_config() {
    // Config with non-numeric key should be ignored
    let config = MappingConfig {
        mapping: vec![("abc".to_string(), "h".to_string())],
    };
    let mapper = Mapper::from_config(&config);
    // Should have no mappings since "abc" is not a valid note number
    assert_eq!(mapper.note_to_key(60), None);
}

#[test]
fn default_positional_15_grid() {
    let mapper = Mapper::default_positional_15();
    let expected = ["y", "u", "i", "o", "p", "h", "j", "k", "l", ";", "n", "m", ",", ".", "/"];
    for (note, key) in expected.iter().enumerate() {
        assert_eq!(mapper.note_to_key(note as u8), Some(*key));
    }
    assert_eq!(mapper.note_to_key(15), None);
    assert_eq!(mapper.note_to_key(60), None);
}

#[test]
fn chromatic_15_covers_60_to_74_only() {
    let mapper = Mapper::default_chromatic_15();
    for note in 0..=255u8 {
        assert_eq!(mapper.note_to_key(note).is_some(), (60..=74).contains(&note));
    }
    assert_eq!(mapper.note_to_key(74), Some("p"));
}

#[test]
fn note_numbers_read_like_std() {
    for text in ["0", "7", "60", "+60", "060", "255", "256", "", "+", "-1", " 60", "6a", "1000"] {
        assert_eq!(parse_note_number(text), text.parse::<u8>().ok(), "text {:?}", text);
    }
}

#[test]
fn later_config_entry_for_a_note_wins() {
    let config = MappingConfig {
        mapping: vec![
            ("60".to_string(), "a".to_string()),
            ("+060".to_string(), "b".to_string()),
            ("300".to_string(), "c".to_string()),
        ],
    };
    let mapper = Mapper::from_config(&config);
    assert_eq!(mapper.note_to_key(60), Some("b"));
    assert_eq!(mapper.note_to_key(44), None);
}
