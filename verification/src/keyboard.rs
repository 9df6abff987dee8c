//! Keyboard keys and the order in which a chord presses them.
use vstd::prelude::*;

verus! {

/// The keyboard keys that a mapping can name.
#[derive(Debug, Clone, Copy, PartialEq, Eq, Structural)]
pub enum Key {
    KeyA,
    KeyB,
    KeyC,
    KeyD,
    KeyE,
    KeyF,
    KeyG,
    KeyH,
    KeyI,
    KeyJ,
    KeyK,
    KeyL,
    KeyM,
    KeyN,
    KeyO,
    KeyP,
    KeyQ,
    KeyR,
    KeyS,
    KeyT,
    KeyU,
    KeyV,
    KeyW,
    KeyX,
    KeyY,
    KeyZ,
    Num0,
    Num1,
    Num2,
    Num3,
    Num4,
    Num5,
    Num6,
    Num7,
    Num8,
    Num9,
    SemiColon,
    Comma,
    Dot,
    Slash,
    Quote,
    LeftBracket,
    RightBracket,
    Minus,
    Equal,
    BackQuote,
    BackSlash,
}

/// Error types for keyboard simulation
#[derive(Debug)]
pub enum KeyboardError {
    /// The system refused to simulate a key event
    SimulateError,
    /// A key text that names no key
    UnknownKey(String),
}

/// The key that a one-character key text names.
pub open spec fn char_key(c: char) -> Option<Key> {
    match c {
        'a' => Some(Key::KeyA),
        'b' => Some(Key::KeyB),
        'c' => Some(Key::KeyC),
        'd' => Some(Key::KeyD),
        'e' => Some(Key::KeyE),
        'f' => Some(Key::KeyF),
        'g' => Some(Key::KeyG),
        'h' => Some(Key::KeyH),
        'i' => Some(Key::KeyI),
        'j' => Some(Key::KeyJ),
        'k' => Some(Key::KeyK),
        'l' => Some(Key::KeyL),
        'm' => Some(Key::KeyM),
        'n' => Some(Key::KeyN),
        'o' => Some(Key::KeyO),
        'p' => Some(Key::KeyP),
        'q' => Some(Key::KeyQ),
        'r' => Some(Key::KeyR),
        's' => Some(Key::KeyS),
        't' => Some(Key::KeyT),
        'u' => Some(Key::KeyU),
        'v' => Some(Key::KeyV),
        'w' => Some(Key::KeyW),
        'x' => Some(Key::KeyX),
        'y' => Some(Key::KeyY),
        'z' => Some(Key::KeyZ),
        '0' => Some(Key::Num0),
        '1' => Some(Key::Num1),
        '2' => Some(Key::Num2),
        '3' => Some(Key::Num3),
        '4' => Some(Key::Num4),
        '5' => Some(Key::Num5),
        '6' => Some(Key::Num6),
        '7' => Some(Key::Num7),
        '8' => Some(Key::Num8),
        '9' => Some(Key::Num9),
        ';' => Some(Key::SemiColon),
        ',' => Some(Key::Comma),
        '.' => Some(Key::Dot),
        '/' => Some(Key::Slash),
        '\'' => Some(Key::Quote),
        '[' => Some(Key::LeftBracket),
        ']' => Some(Key::RightBracket),
        '-' => Some(Key::Minus),
        '=' => Some(Key::Equal),
        '`' => Some(Key::BackQuote),
        '\\' => Some(Key::BackSlash),
        _ => None,
    }
}

/// The key that a key text names: a single letter, digit or one of
/// ``; , . / ' [ ] - = ` \``.
pub open spec fn key_for(s: Seq<char>) -> Option<Key> {
    if s.len() == 1 {
        char_key(s[0])
    } else {
        None
    }
}

fn char_to_key(c: char) -> (r: Option<Key>)
    ensures
        r == char_key(c),
{
    match c {
        'a' => Some(Key::KeyA),
        'b' => Some(Key::KeyB),
        'c' => Some(Key::KeyC),
        'd' => Some(Key::KeyD),
        'e' => Some(Key::KeyE),
        'f' => Some(Key::KeyF),
        'g' => Some(Key::KeyG),
        'h' => Some(Key::KeyH),
        'i' => Some(Key::KeyI),
        'j' => Some(Key::KeyJ),
        'k' => Some(Key::KeyK),
        'l' => Some(Key::KeyL),
        'm' => Some(Key::KeyM),
        'n' => Some(Key::KeyN),
        'o' => Some(Key::KeyO),
        'p' => Some(Key::KeyP),
        'q' => Some(Key::KeyQ),
        'r' => Some(Key::KeyR),
        's' => Some(Key::KeyS),
        't' => Some(Key::KeyT),
        'u' => Some(Key::KeyU),
        'v' => Some(Key::KeyV),
        'w' => Some(Key::KeyW),
        'x' => Some(Key::KeyX),
        'y' => Some(Key::KeyY),
        'z' => Some(Key::KeyZ),
        '0' => Some(Key::Num0),
        '1' => Some(Key::Num1),
        '2' => Some(Key::Num2),
        '3' => Some(Key::Num3),
        '4' => Some(Key::Num4),
        '5' => Some(Key::Num5),
        '6' => Some(Key::Num6),
        '7' => Some(Key::Num7),
        '8' => Some(Key::Num8),
        '9' => Some(Key::Num9),
        ';' => Some(Key::SemiColon),
        ',' => Some(Key::Comma),
        '.' => Some(Key::Dot),
        '/' => Some(Key::Slash),
        '\'' => Some(Key::Quote),
        '[' => Some(Key::LeftBracket),
        ']' => Some(Key::RightBracket),
        '-' => Some(Key::Minus),
        '=' => Some(Key::Equal),
        '`' => Some(Key::BackQuote),
        '\\' => Some(Key::BackSlash),
        _ => None,
    }
}

/// Maps key string (e.g., "h", ";") to a key
pub fn key_str_to_key(key_str: &str) -> (r: Option<Key>)
    ensures
        r == key_for(key_str@),
{
    if key_str.unicode_len() != 1 {
        return None;
    }
    char_to_key(key_str.get_char(0))
}

/// What pressing a chord does: the keys pressed one after another, the
/// keys released after the hold, last pressed first, and the key text that
/// names no key, if one stops the chord.
#[derive(Debug)]
pub struct ChordPlan {
    pub press: Vec<Key>,
    pub release: Vec<Key>,
    pub unknown: Option<String>,
}

/// Plans pressing several keys at once: all keys go down in order, are held,
/// then come up in reverse order. A key text that names no key stops the
/// chord there, after the keys before it went down and with none released.
pub fn chord_press_plan(keys: &[&str]) -> (plan: ChordPlan)
    ensures
        plan.press@.len() <= keys@.len(),
        forall|i: int|
            0 <= i < plan.press@.len() ==> key_for(keys@[i]@) == Some(#[trigger] plan.press@[i]),
        match plan.unknown {
            Some(s) => plan.press@.len() < keys@.len() && key_for(keys@[plan.press@.len() as int]@)
                is None && s@ == keys@[plan.press@.len() as int]@,
            None => plan.press@.len() == keys@.len(),
        },
        plan.release@ == if plan.unknown is None {
            plan.press@.reverse()
        } else {
            Seq::empty()
        },
{
    let mut press: Vec<Key> = Vec::new();
    let mut i: usize = 0;
    while i < keys.len()
        invariant
            i <= keys@.len(),
            press@.len() == i,
            forall|j: int| 0 <= j < i ==> key_for(keys@[j]@) == Some(#[trigger] press@[j]),
        decreases keys.len() - i,
    {
        match key_str_to_key(keys[i]) {
            Some(k) => press.push(k),
            None => {
                return ChordPlan {
                    press,
                    release: Vec::new(),
                    unknown: Some(String::from_str(keys[i])),
                };
            },
        }
        i += 1;
    }
    let mut release: Vec<Key> = Vec::new();
    let mut j: usize = press.len();
    while j > 0
        invariant
            j <= press@.len(),
            release@ == press@.subrange(j as int, press@.len() as int).reverse(),
        decreases j,
    {
        j -= 1;
        release.push(press[j]);
        assert(release@ =~= press@.subrange(j as int, press@.len() as int).reverse());
    }
    assert(press@.subrange(0, press@.len() as int) =~= press@);
    ChordPlan { press, release, unknown: None }
}


/// No two key texts name the same key.
pub proof fn lemma_key_texts_distinct(a: Seq<char>, b: Seq<char>)
    requires
        key_for(a) is Some,
        key_for(a) == key_for(b),
    ensures
        a == b,
{
    assert(a =~= seq![a[0]]);
    assert(b =~= seq![b[0]]);
}

/// Each one-character key text names the key marked with that character:
/// a letter its letter key, a digit its number key, and each punctuation
/// mark its own key.
pub proof fn lemma_key_table()
    ensures
        key_for(seq!['a']) == Some(Key::KeyA),
        key_for(seq!['b']) == Some(Key::KeyB),
        key_for(seq!['c']) == Some(Key::KeyC),
        key_for(seq!['d']) == Some(Key::KeyD),
        key_for(seq!['e']) == Some(Key::KeyE),
        key_for(seq!['f']) == Some(Key::KeyF),
        key_for(seq!['g']) == Some(Key::KeyG),
        key_for(seq!['h']) == Some(Key::KeyH),
        key_for(seq!['i']) == Some(Key::KeyI),
        key_for(seq!['j']) == Some(Key::KeyJ),
        key_for(seq!['k']) == Some(Key::KeyK),
        key_for(seq!['l']) == Some(Key::KeyL),
        key_for(seq!['m']) == Some(Key::KeyM),
        key_for(seq!['n']) == Some(Key::KeyN),
        key_for(seq!['o']) == Some(Key::KeyO),
        key_for(seq!['p']) == Some(Key::KeyP),
        key_for(seq!['q']) == Some(Key::KeyQ),
        key_for(seq!['r']) == Some(Key::KeyR),
        key_for(seq!['s']) == Some(Key::KeyS),
        key_for(seq!['t']) == Some(Key::KeyT),
        key_for(seq!['u']) == Some(Key::KeyU),
        key_for(seq!['v']) == Some(Key::KeyV),
        key_for(seq!['w']) == Some(Key::KeyW),
        key_for(seq!['x']) == Some(Key::KeyX),
        key_for(seq!['y']) == Some(Key::KeyY),
        key_for(seq!['z']) == Some(Key::KeyZ),
        key_for(seq!['0']) == Some(Key::Num0),
        key_for(seq!['1']) == Some(Key::Num1),
        key_for(seq!['2']) == Some(Key::Num2),
        key_for(seq!['3']) == Some(Key::Num3),
        key_for(seq!['4']) == Some(Key::Num4),
        key_for(seq!['5']) == Some(Key::Num5),
        key_for(seq!['6']) == Some(Key::Num6),
        key_for(seq!['7']) == Some(Key::Num7),
        key_for(seq!['8']) == Some(Key::Num8),
        key_for(seq!['9']) == Some(Key::Num9),
        key_for(seq![';']) == Some(Key::SemiColon),
        key_for(seq![',']) == Some(Key::Comma),
        key_for(seq!['.']) == Some(Key::Dot),
        key_for(seq!['/']) == Some(Key::Slash),
        key_for(seq!['\'']) == Some(Key::Quote),
        key_for(seq!['[']) == Some(Key::LeftBracket),
        key_for(seq![']']) == Some(Key::RightBracket),
        key_for(seq!['-']) == Some(Key::Minus),
        key_for(seq!['=']) == Some(Key::Equal),
        key_for(seq!['`']) == Some(Key::BackQuote),
        key_for(seq!['\\']) == Some(Key::BackSlash),
{
}

} // verus!
