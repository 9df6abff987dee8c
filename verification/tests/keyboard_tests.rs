use sky_piano::keyboard::{chord_press_plan, key_str_to_key, Key};

#[test]
fn test_key_str_to_rdev_key_letters() {
    assert_eq!(key_str_to_key("h"), Some(Key::KeyH));
    assert_eq!(key_str_to_key("j"), Some(Key::KeyJ));
    assert_eq!(key_str_to_key("k"), Some(Key::KeyK));
    assert_eq!(key_str_to_key("l"), Some(Key::KeyL));
    assert_eq!(key_str_to_key(";"), Some(Key::SemiColon));
    assert_eq!(key_str_to_key(","), Some(Key::Comma));
    assert_eq!(key_str_to_key("."), Some(Key::Dot));
    assert_eq!(key_str_to_key("/"), Some(Key::Slash));
    assert_eq!(key_str_to_key("y"), Some(Key::KeyY));
    assert_eq!(key_str_to_key("u"), Some(Key::KeyU));
    assert_eq!(key_str_to_key("i"), Some(Key::KeyI));
    assert_eq!(key_str_to_key("o"), Some(Key::KeyO));
    assert_eq!(key_str_to_key("p"), Some(Key::KeyP));
}

#[test]
fn test_key_str_to_rdev_key_numbers() {
    assert_eq!(key_str_to_key("0"), Some(Key::Num0));
    assert_eq!(key_str_to_key("9"), Some(Key::Num9));
}

#[test]
fn test_key_str_to_rdev_key_invalid() {
    assert_eq!(key_str_to_key("space"), None);
    assert_eq!(key_str_to_key("enter"), None);
    assert_eq!(key_str_to_key(""), None);
    assert_eq!(key_str_to_key("abc"), None);
}

#[test]
fn punctuation_keys() {
    assert_eq!(key_str_to_key("'"), Some(Key::Quote));
    assert_eq!(key_str_to_key("["), Some(Key::LeftBracket));
    assert_eq!(key_str_to_key("]"), Some(Key::RightBracket));
    assert_eq!(key_str_to_key("-"), Some(Key::Minus));
    assert_eq!(key_str_to_key("="), Some(Key::Equal));
    assert_eq!(key_str_to_key("`"), Some(Key::BackQuote));
    assert_eq!(key_str_to_key("\\"), Some(Key::BackSlash));
    assert_eq!(key_str_to_key("A"), None);
    assert_eq!(key_str_to_key("é"), None);
}

#[test]
fn chord_presses_in_order_and_releases_in_reverse() {
    let plan = chord_press_plan(&["h", "j", ";"]);
    assert_eq!(plan.press, vec![Key::KeyH, Key::KeyJ, Key::SemiColon]);
    assert_eq!(plan.release, vec![Key::SemiColon, Key::KeyJ, Key::KeyH]);
    assert!(plan.unknown.is_none());
}

#[test]
fn chord_stops_at_unknown_key() {
    let plan = chord_press_plan(&["h", "space", "j"]);
    assert_eq!(plan.press, vec![Key::KeyH]);
    assert!(plan.release.is_empty());
    assert_eq!(plan.unknown, Some("space".to_string()));
}

#[test]
fn empty_chord_plans_nothing() {
    let plan = chord_press_plan(&[]);
    assert!(plan.press.is_empty());
    assert!(plan.release.is_empty());
    assert!(plan.unknown.is_none());
}
