//! Mapping of MIDI note numbers to keyboard keys.
use std::collections::HashMap;
use vstd::prelude::*;

verus! {

broadcast use vstd::std_specs::hash::group_hash_axioms;

/// A mapping configuration as read from a TOML file: pairs of a MIDI note
/// number written in decimal and the key it maps to.
#[derive(Debug, Clone)]
pub struct MappingConfig {
    pub mapping: Vec<(String, String)>,
}

impl Default for MappingConfig {
    fn default() -> (r: Self)
        ensures
            r.mapping@.len() == 0,
    {
        MappingConfig { mapping: Vec::new() }
    }
}

/// `c` is a decimal digit.
pub open spec fn is_digit(c: char) -> bool {
    '0' <= c <= '9'
}

/// The number that the decimal digits `s` spell.
pub open spec fn digits_value(s: Seq<char>) -> nat
    decreases s.len(),
{
    if s.len() == 0 {
        0
    } else {
        digits_value(s.drop_last()) * 10 + (s.last() as nat - 48) as nat
    }
}

/// The digits of a decimal numeral: all after an optional leading `+`.
pub open spec fn numeral_digits(s: Seq<char>) -> Seq<char> {
    if s.len() > 0 && s[0] == '+' {
        s.skip(1)
    } else {
        s
    }
}

/// The `u8` that the text `s` denotes: an optional `+` followed by one or
/// more decimal digits whose value is at most 255, and nothing else.
pub open spec fn parse_u8(s: Seq<char>) -> Option<u8> {
    let d = numeral_digits(s);
    if d.len() > 0 && (forall|i: int| 0 <= i < d.len() ==> is_digit(#[trigger] d[i]))
        && digits_value(d) <= 255 {
        Some(digits_value(d) as u8)
    } else {
        None
    }
}

/// Reads a MIDI note number written in decimal, as `str::parse::<u8>` does.
pub fn parse_note_number(s: &str) -> (r: Option<u8>)
    ensures
        r == parse_u8(s@),
{
    let n = s.unicode_len();
    let mut start: usize = 0;
    if n > 0 && s.get_char(0) == '+' {
        start = 1;
    }
    let ghost d = numeral_digits(s@);
    assert(d =~= s@.skip(start as int));
    if start == n {
        return None;
    }
    // The value of the digits read so far, capped at 256.
    let mut value: u32 = 0;
    let mut i: usize = start;
    while i < n
        invariant
            start <= i <= n,
            n == s@.len(),
            d =~= s@.skip(start as int),
            d == numeral_digits(s@),
            forall|j: int| 0 <= j < i - start ==> is_digit(#[trigger] d[j]),
            value == if digits_value(d.take(i - start)) < 256 {
                digits_value(d.take(i - start))
            } else {
                256
            },
        decreases n - i,
    {
        let c = s.get_char(i);
        if !('0' <= c && c <= '9') {
            assert(d[i - start] == c);
            assert(!is_digit(d[i - start]));
            assert(!(forall|j: int| 0 <= j < d.len() ==> is_digit(#[trigger] d[j])));
            return None;
        }
        let digit = (c as u32) - 48;
        assert(d.take(i + 1 - start).drop_last() =~= d.take(i - start));
        value = value * 10 + digit;
        if value > 256 {
            value = 256;
        }
        i += 1;
    }
    assert(d.take(n - start) =~= d);
    if value <= 255 {
        Some(value as u8)
    } else {
        None
    }
}

/// Maps MIDI note numbers to keyboard keys.
#[derive(Debug, Clone)]
pub struct Mapper {
    /// Maps MIDI note number (0-127) to key string (e.g., "h", "j", ";")
    note_to_key: HashMap<u8, String>,
}

impl View for Mapper {
    type V = Map<u8, Seq<char>>;

    /// The key text of each mapped note.
    closed spec fn view(&self) -> Map<u8, Seq<char>> {
        Map::new(|k: u8| self.note_to_key@.contains_key(k), |k: u8| self.note_to_key@[k]@)
    }
}

/// The mapping that a configuration's entries give: each entry whose note
/// text reads as a number maps that note to its key, and of several entries
/// for one note the last one counts. Other entries are ignored.
pub open spec fn config_map(entries: Seq<(String, String)>) -> Map<u8, Seq<char>>
    decreases entries.len(),
{
    if entries.len() == 0 {
        Map::empty()
    } else {
        let rest = config_map(entries.drop_last());
        match parse_u8(entries.last().0@) {
            Some(n) => rest.insert(n, entries.last().1@),
            None => rest,
        }
    }
}

/// The default chromatic mapping: notes 60 (middle C) to 74.
pub open spec fn chromatic_15() -> Map<u8, Seq<char>> {
    map![
        60u8 => "h"@, 61u8 => "j"@, 62u8 => "k"@, 63u8 => "l"@, 64u8 => ";"@,
        65u8 => "n"@, 66u8 => "m"@, 67u8 => ","@, 68u8 => "."@, 69u8 => "/"@,
        70u8 => "y"@, 71u8 => "u"@, 72u8 => "i"@, 73u8 => "o"@, 74u8 => "p"@,
    ]
}

/// The positional mapping: notes 0 to 14 are the keys of Sky's 3x5 grid,
/// row by row (Y U I O P / H J K L ; / N M , . /).
pub open spec fn positional_15() -> Map<u8, Seq<char>> {
    map![
        0u8 => "y"@, 1u8 => "u"@, 2u8 => "i"@, 3u8 => "o"@, 4u8 => "p"@,
        5u8 => "h"@, 6u8 => "j"@, 7u8 => "k"@, 8u8 => "l"@, 9u8 => ";"@,
        10u8 => "n"@, 11u8 => "m"@, 12u8 => ","@, 13u8 => "."@, 14u8 => "/"@,
    ]
}

impl Mapper {
    /// Adds one note to the mapping.
    fn add(&mut self, note: u8, key: &str)
        ensures
            final(self)@ == old(self)@.insert(note, key@),
    {
        self.note_to_key.insert(note, String::from_str(key));
        assert(final(self)@ =~= old(self)@.insert(note, key@));
    }

    /// An empty mapping.
    fn empty() -> (m: Self)
        ensures
            m@ == Map::<u8, Seq<char>>::empty(),
    {
        let m = Mapper { note_to_key: HashMap::new() };
        assert(m@ =~= Map::<u8, Seq<char>>::empty());
        m
    }

    /// Create a new mapper from a TOML config file.
    pub fn from_config(config: &MappingConfig) -> (m: Self)
        ensures
            m@ == config_map(config.mapping@),
    {
        let mut m = Mapper::empty();
        let mut i: usize = 0;
        while i < config.mapping.len()
            invariant
                i <= config.mapping@.len(),
                m@ == config_map(config.mapping@.take(i as int)),
            decreases config.mapping.len() - i,
        {
            let entry = &config.mapping[i];
            assert(config.mapping@.take(i + 1).drop_last() =~= config.mapping@.take(i as int));
            if let Some(note) = parse_note_number(entry.0.as_str()) {
                m.add(note, entry.1.as_str());
            }
            i += 1;
        }
        assert(config.mapping@.take(config.mapping@.len() as int) =~= config.mapping@);
        m
    }

    /// Create a mapper with the default 15-key chromatic mapping.
    ///
    /// | Note | Key |
    /// |------|-----|
    /// | C (60)  | h |
    /// | C# (61) | j |
    /// | D (62)  | k |
    /// | D# (63) | l |
    /// | E (64)  | ; |
    /// | F (65)  | n |
    /// | F# (66) | m |
    /// | G (67)  | , |
    /// | G# (68) | . |
    /// | A (69)  | / |
    /// | A# (70) | y |
    /// | B (71)  | u |
    /// | C2 (72) | i |
    /// | D2 (73) | o |
    /// | E2 (74) | p |
    pub fn default_chromatic_15() -> (m: Self)
        ensures
            m@ == chromatic_15(),
    {
        let mut m = Mapper::empty();
        m.add(60, "h");
        m.add(61, "j");
        m.add(62, "k");
        m.add(63, "l");
        m.add(64, ";");
        m.add(65, "n");
        m.add(66, "m");
        m.add(67, ",");
        m.add(68, ".");
        m.add(69, "/");
        m.add(70, "y");
        m.add(71, "u");
        m.add(72, "i");
        m.add(73, "o");
        m.add(74, "p");
        assert(m@ =~= chromatic_15());
        m
    }

    /// Create a mapper with the 15-key positional mapping: notes 0 to 14
    /// are Sky's keys 0 to 14.
    ///
    /// | Note | Key | | Note | Key | | Note | Key |
    /// |------|-----|-|------|-----|-|------|-----|
    /// | 0 | y | | 5 | h | | 10 | n |
    /// | 1 | u | | 6 | j | | 11 | m |
    /// | 2 | i | | 7 | k | | 12 | , |
    /// | 3 | o | | 8 | l | | 13 | . |
    /// | 4 | p | | 9 | ; | | 14 | / |
    pub fn default_positional_15() -> (m: Self)
        ensures
            m@ == positional_15(),
    {
        let mut m = Mapper::empty();
        m.add(0, "y");
        m.add(1, "u");
        m.add(2, "i");
        m.add(3, "o");
        m.add(4, "p");
        m.add(5, "h");
        m.add(6, "j");
        m.add(7, "k");
        m.add(8, "l");
        m.add(9, ";");
        m.add(10, "n");
        m.add(11, "m");
        m.add(12, ",");
        m.add(13, ".");
        m.add(14, "/");
        assert(m@ =~= positional_15());
        m
    }

    /// Convert a MIDI note number to a keyboard key.
    /// Returns `None` if the note is not mapped.
    pub fn note_to_key(&self, note: u8) -> (r: Option<&str>)
        ensures
            match r {
                Some(k) => self@.contains_key(note) && k@ == self@[note],
                None => !self@.contains_key(note),
            },
    {
        match self.note_to_key.get(&note) {
            Some(s) => Some(s.as_str()),
            None => None,
        }
    }
}


/// The note an entry names, when its text reads as a number.
pub open spec fn entry_note(entries: Seq<(String, String)>, i: int) -> Option<u8> {
    parse_u8(entries[i].0@)
}

/// A configuration maps exactly the notes that some entry names, each to
/// the key of the last entry that names it.
pub proof fn lemma_config_map_lookup(entries: Seq<(String, String)>, n: u8)
    ensures
        config_map(entries).contains_key(n) <==> exists|i: int|
            0 <= i < entries.len() && #[trigger] entry_note(entries, i) == Some(n),
        forall|i: int|
            0 <= i < entries.len() && #[trigger] entry_note(entries, i) == Some(n) && (forall|j: int|
                i < j < entries.len() ==> entry_note(entries, j) != Some(n)) ==> config_map(
                entries,
            )[n] == entries[i].1@,
    decreases entries.len(),
{
    if entries.len() > 0 {
        let prev = entries.drop_last();
        lemma_config_map_lookup(prev, n);
        let last = entries.len() - 1;
        assert(entry_note(entries, last) == parse_u8(entries.last().0@));
        assert forall|i: int| 0 <= i < prev.len() implies entry_note(prev, i) == entry_note(
            entries,
            i,
        ) by {
            assert(prev[i] == entries[i]);
        }
        if config_map(entries).contains_key(n) && entry_note(entries, last) != Some(n) {
            let i = choose|i: int| 0 <= i < prev.len() && #[trigger] entry_note(prev, i) == Some(n);
            assert(entry_note(entries, i) == Some(n));
        }
        assert forall|i: int|
            0 <= i < entries.len() && #[trigger] entry_note(entries, i) == Some(n) && (forall|j: int|
                i < j < entries.len() ==> entry_note(entries, j) != Some(n)) implies config_map(
            entries,
        )[n] == entries[i].1@ by {
            if i < last {
                assert(entry_note(entries, last) != Some(n));
                assert(entry_note(prev, i) == Some(n));
                assert forall|j: int| i < j < prev.len() implies entry_note(prev, j) != Some(n) by {
                    assert(entry_note(entries, j) != Some(n));
                }
            }
        }
    }
}

proof fn lemma_digits_value_decimal(n: nat)
    ensures
        digits_value(crate::midi::decimal(n)) == n,
        crate::midi::decimal(n).len() > 0,
        forall|i: int|
            0 <= i < crate::midi::decimal(n).len() ==> is_digit(#[trigger] crate::midi::decimal(n)[i]),
    decreases n,
{
    let d = crate::midi::decimal(n);
    assert(crate::midi::digit_char(n % 10) as nat == n % 10 + 48);
    if n >= 10 {
        assert(n == (n / 10) * 10 + n % 10) by (nonlinear_arith);
        lemma_digits_value_decimal(n / 10);
        assert(d.drop_last() =~= crate::midi::decimal(n / 10));
        assert(d.last() == crate::midi::digit_char(n % 10));
        assert(digits_value(d) == digits_value(d.drop_last()) * 10 + (d.last() as nat - 48) as nat);
        assert forall|i: int| 0 <= i < d.len() implies is_digit(#[trigger] d[i]) by {
            if i < d.len() - 1 {
                assert(d[i] == crate::midi::decimal(n / 10)[i]);
            }
        }
    } else {
        assert(d.drop_last() =~= Seq::<char>::empty());
        assert(d.last() == crate::midi::digit_char(n % 10));
        assert(digits_value(d) == digits_value(d.drop_last()) * 10 + (d.last() as nat - 48) as nat);
    }
}

/// A note number written in decimal reads back as that number.
pub proof fn lemma_parse_decimal(n: u8)
    ensures
        parse_u8(crate::midi::decimal(n as nat)) == Some(n),
{
    lemma_digits_value_decimal(n as nat);
    let d = crate::midi::decimal(n as nat);
    assert(is_digit(d[0]));
    assert(numeral_digits(d) == d);
}

/// The chromatic mapping maps notes 60 to 74 and no others.
pub proof fn lemma_chromatic_15_notes(n: u8)
    ensures
        chromatic_15().contains_key(n) <==> 60 <= n <= 74,
{
}

/// The positional mapping maps notes 0 to 14 and no others.
pub proof fn lemma_positional_15_notes(n: u8)
    ensures
        positional_15().contains_key(n) <==> n <= 14,
{
}

/// The chromatic mapping gives notes 60 (middle C) to 74 the keys
/// h j k l ; n m , . / y u i o p, in that order.
pub proof fn lemma_chromatic_15_keys()
    ensures
        chromatic_15()[60u8] == seq!['h'],
        chromatic_15()[61u8] == seq!['j'],
        chromatic_15()[62u8] == seq!['k'],
        chromatic_15()[63u8] == seq!['l'],
        chromatic_15()[64u8] == seq![';'],
        chromatic_15()[65u8] == seq!['n'],
        chromatic_15()[66u8] == seq!['m'],
        chromatic_15()[67u8] == seq![','],
        chromatic_15()[68u8] == seq!['.'],
        chromatic_15()[69u8] == seq!['/'],
        chromatic_15()[70u8] == seq!['y'],
        chromatic_15()[71u8] == seq!['u'],
        chromatic_15()[72u8] == seq!['i'],
        chromatic_15()[73u8] == seq!['o'],
        chromatic_15()[74u8] == seq!['p'],
{
    reveal_strlit("h");
    assert("h"@ =~= seq!['h']);
    reveal_strlit("j");
    assert("j"@ =~= seq!['j']);
    reveal_strlit("k");
    assert("k"@ =~= seq!['k']);
    reveal_strlit("l");
    assert("l"@ =~= seq!['l']);
    reveal_strlit(";");
    assert(";"@ =~= seq![';']);
    reveal_strlit("n");
    assert("n"@ =~= seq!['n']);
    reveal_strlit("m");
    assert("m"@ =~= seq!['m']);
    reveal_strlit(",");
    assert(","@ =~= seq![',']);
    reveal_strlit(".");
    assert("."@ =~= seq!['.']);
    reveal_strlit("/");
    assert("/"@ =~= seq!['/']);
    reveal_strlit("y");
    assert("y"@ =~= seq!['y']);
    reveal_strlit("u");
    assert("u"@ =~= seq!['u']);
    reveal_strlit("i");
    assert("i"@ =~= seq!['i']);
    reveal_strlit("o");
    assert("o"@ =~= seq!['o']);
    reveal_strlit("p");
    assert("p"@ =~= seq!['p']);
}

/// The positional mapping gives notes 0 to 14 the keys of Sky's grid row
/// by row: y u i o p, h j k l ;, n m , . /.
pub proof fn lemma_positional_15_keys()
    ensures
        positional_15()[0u8] == seq!['y'],
        positional_15()[1u8] == seq!['u'],
        positional_15()[2u8] == seq!['i'],
        positional_15()[3u8] == seq!['o'],
        positional_15()[4u8] == seq!['p'],
        positional_15()[5u8] == seq!['h'],
        positional_15()[6u8] == seq!['j'],
        positional_15()[7u8] == seq!['k'],
        positional_15()[8u8] == seq!['l'],
        positional_15()[9u8] == seq![';'],
        positional_15()[10u8] == seq!['n'],
        positional_15()[11u8] == seq!['m'],
        positional_15()[12u8] == seq![','],
        positional_15()[13u8] == seq!['.'],
        positional_15()[14u8] == seq!['/'],
{
    reveal_strlit("h");
    assert("h"@ =~= seq!['h']);
    reveal_strlit("j");
    assert("j"@ =~= seq!['j']);
    reveal_strlit("k");
    assert("k"@ =~= seq!['k']);
    reveal_strlit("l");
    assert("l"@ =~= seq!['l']);
    reveal_strlit(";");
    assert(";"@ =~= seq![';']);
    reveal_strlit("n");
    assert("n"@ =~= seq!['n']);
    reveal_strlit("m");
    assert("m"@ =~= seq!['m']);
    reveal_strlit(",");
    assert(","@ =~= seq![',']);
    reveal_strlit(".");
    assert("."@ =~= seq!['.']);
    reveal_strlit("/");
    assert("/"@ =~= seq!['/']);
    reveal_strlit("y");
    assert("y"@ =~= seq!['y']);
    reveal_strlit("u");
    assert("u"@ =~= seq!['u']);
    reveal_strlit("i");
    assert("i"@ =~= seq!['i']);
    reveal_strlit("o");
    assert("o"@ =~= seq!['o']);
    reveal_strlit("p");
    assert("p"@ =~= seq!['p']);
}

} // verus!
