//! Parsing of standard MIDI files into note events.
//!
//! A track is read as delta-timed messages: note messages give note
//! events, set-tempo meta events give tempo changes, and all other
//! messages are skipped, meta events and system exclusive messages by their
//! length. Ticks count from the start of each track. The
//! tempo changes of all tracks form the song's tempo map (120 beats per
//! minute before the first change), which turns each event's tick into
//! microseconds from the start of the song.
use vstd::prelude::*;
use crate::order::{
    sort_by_key, sorted_by_key, with_key, lemma_insert_at, lemma_sort_by_key, lemma_sort_stable,
};
use crate::tempo::{
    TempoChange, tempo_tick, micros_at, max_tick, max_micros, tempo_map_ok, tick_to_micros,
    lemma_micros_monotone,
};

verus! {

/// A note event of a song.
#[derive(Debug, Clone, Copy, PartialEq, Eq, Structural)]
pub struct MidiEvent {
    /// Time in microseconds from the start of the song
    pub time: u128,
    /// MIDI note number (0-127 in well-formed files)
    pub note: u8,
    /// True if note-on, false if note-off
    pub is_note_on: bool,
    /// Velocity (0-127), only meaningful for note-on
    pub velocity: u8,
}

/// A note event of a track, timed in ticks from the start of the track.
#[derive(Debug, Clone, Copy, PartialEq, Eq, Structural)]
pub struct TickEvent {
    pub tick: u64,
    pub note: u8,
    pub is_note_on: bool,
    pub velocity: u8,
}

/// The note events of a MIDI file with its time base and tempo map.
#[derive(Debug, Clone)]
pub struct MidiSong {
    /// Ticks per quarter note, from the file header
    pub division: u16,
    /// The set-tempo events of all tracks, in order of tick
    pub tempos: Vec<TempoChange>,
    /// Note events of all tracks, in nondecreasing time order
    pub events: Vec<MidiEvent>,
}

#[verifier::external_type_specification]
#[verifier::external_body]
pub struct ExIoError(std::io::Error);

/// Error types for MIDI parsing
#[derive(Debug)]
pub enum MidiError {
    FileOpen(std::io::Error),
    InvalidMidi(String),
    UnsupportedFormat(u16),
}

/// The ways in which a byte sequence fails to be a MIDI file that this
/// library reads.
#[derive(Debug, Clone, Copy, PartialEq, Eq, Structural)]
pub enum MidiFault {
    FileTooShort,
    MissingHeader,
    HeaderTooShort,
    UnsupportedFormat(u16),
    MissingTrackHeader,
    TrackPastEnd,
    RunningStatusWithoutStatus,
    VarLenTooLong,
    UnexpectedEnd,
    ZeroDivision,
}

/// The message that an `InvalidMidi` error carries for each fault.
pub open spec fn fault_message(f: MidiFault) -> Seq<char> {
    match f {
        MidiFault::FileTooShort => "File too short"@,
        MidiFault::MissingHeader => "Missing MThd header"@,
        MidiFault::HeaderTooShort => "Header too short"@,
        MidiFault::UnsupportedFormat(_) => Seq::empty(),
        MidiFault::MissingTrackHeader => "Missing MTrk header"@,
        MidiFault::TrackPastEnd => "Track extends past file"@,
        MidiFault::RunningStatusWithoutStatus => "Running status without previous status"@,
        MidiFault::VarLenTooLong => "Variable length quantity too long"@,
        MidiFault::UnexpectedEnd => "Unexpected end of data"@,
        MidiFault::ZeroDivision => "Division is zero"@,
    }
}

/// `e` is the error that reports fault `f`.
pub open spec fn reports(e: MidiError, f: MidiFault) -> bool {
    match f {
        MidiFault::UnsupportedFormat(x) => e matches MidiError::UnsupportedFormat(y) && x == y,
        _ => e matches MidiError::InvalidMidi(m) && m@ == fault_message(f),
    }
}

/// Builds the error that reports a fault.
fn fault_error(f: MidiFault) -> (e: MidiError)
    ensures
        reports(e, f),
{
    match f {
        MidiFault::FileTooShort => MidiError::InvalidMidi(String::from_str("File too short")),
        MidiFault::MissingHeader => MidiError::InvalidMidi(String::from_str("Missing MThd header")),
        MidiFault::HeaderTooShort => MidiError::InvalidMidi(String::from_str("Header too short")),
        MidiFault::UnsupportedFormat(x) => MidiError::UnsupportedFormat(x),
        MidiFault::MissingTrackHeader => MidiError::InvalidMidi(
            String::from_str("Missing MTrk header"),
        ),
        MidiFault::TrackPastEnd => MidiError::InvalidMidi(
            String::from_str("Track extends past file"),
        ),
        MidiFault::RunningStatusWithoutStatus => MidiError::InvalidMidi(
            String::from_str("Running status without previous status"),
        ),
        MidiFault::VarLenTooLong => MidiError::InvalidMidi(
            String::from_str("Variable length quantity too long"),
        ),
        MidiFault::UnexpectedEnd => MidiError::InvalidMidi(
            String::from_str("Unexpected end of data"),
        ),
        MidiFault::ZeroDivision => MidiError::InvalidMidi(String::from_str("Division is zero")),
    }
}

/// The big-endian value of the two bytes at `i` and `i + 1`.
pub open spec fn be16(s: Seq<u8>, i: int) -> int {
    s[i] * 256 + s[i + 1]
}

/// The big-endian value of the four bytes from `i` to `i + 3`.
pub open spec fn be32(s: Seq<u8>, i: int) -> int {
    s[i] * 16777216 + s[i + 1] * 65536 + s[i + 2] * 256 + s[i + 3]
}

/// Reads a big-endian `u16` from the first two bytes.
pub fn read_u16be(data: &[u8]) -> (r: u16)
    requires
        data@.len() >= 2,
    ensures
        r == be16(data@, 0),
{
    (data[0] as u16) * 256 + (data[1] as u16)
}

/// Reads a big-endian `u32` from the first four bytes.
pub fn read_u32be(data: &[u8]) -> (r: u32)
    requires
        data@.len() >= 4,
    ensures
        r == be32(data@, 0),
{
    (data[0] as u32) * 16777216 + (data[1] as u32) * 65536 + (data[2] as u32) * 256
        + (data[3] as u32)
}

/// The number formed by the low seven bits of the first `n` bytes of `s`,
/// most significant group first.
pub open spec fn vlq_value(s: Seq<u8>, n: nat) -> nat
    decreases n,
{
    if n == 0 {
        0
    } else {
        vlq_value(s, (n - 1) as nat) * 128 + (s[n - 1] % 128) as nat
    }
}

/// Reading a variable-length quantity from byte `i` of `s` on, given that
/// the bytes before `i` all have their high bit set. A quantity has at most
/// four bytes; its last byte is the first one whose high bit is clear.
/// The result is the value and the number of bytes read.
pub open spec fn vlq_scan(s: Seq<u8>, i: nat) -> Result<(nat, nat), MidiFault>
    decreases 3 - i,
{
    if i >= s.len() {
        Err(MidiFault::UnexpectedEnd)
    } else if s[i as int] < 128 {
        Ok((vlq_value(s, i + 1), i + 1))
    } else if i >= 3 {
        Err(MidiFault::VarLenTooLong)
    } else {
        vlq_scan(s, i + 1)
    }
}

/// The variable-length quantity at the start of `s`.
pub open spec fn read_vlq(s: Seq<u8>) -> Result<(nat, nat), MidiFault> {
    vlq_scan(s, 0)
}

/// Reads a variable-length quantity, giving the fault where there is one.
fn scan_vlq(data: &[u8]) -> (r: Result<(u32, usize), MidiFault>)
    ensures
        match (r, read_vlq(data@)) {
            (Ok((v, n)), Ok((sv, sn))) => v == sv && n == sn,
            (Err(f), Err(g)) => f == g,
            _ => false,
        },
        r matches Ok((v, n)) ==> 1 <= n <= 4 && n <= data@.len() && v < 268435456,
{
    let mut result: u32 = 0;
    let mut i: usize = 0;
    while i < data.len()
        invariant
            i <= 3,
            i <= data@.len(),
            result == vlq_value(data@, i as nat),
            i == 0 ==> result == 0,
            i == 1 ==> result < 128,
            i == 2 ==> result < 16384,
            i == 3 ==> result < 2097152,
            read_vlq(data@) == vlq_scan(data@, i as nat),
        decreases data.len() - i,
    {
        let byte = data[i];
        result = result * 128 + (byte % 128) as u32;
        if byte < 128 {
            return Ok((result, i + 1));
        }
        if i >= 3 {
            return Err(MidiFault::VarLenTooLong);
        }
        i += 1;
    }
    Err(MidiFault::UnexpectedEnd)
}

/// Read a variable-length quantity (MIDI uses this for delta times)
pub fn read_variable_length(data: &[u8]) -> (r: Result<(u32, usize), MidiError>)
    ensures
        match (r, read_vlq(data@)) {
            (Ok((v, n)), Ok((sv, sn))) => v == sv && n == sn,
            (Err(e), Err(f)) => reports(e, f),
            _ => false,
        },
        r matches Ok((v, n)) ==> 1 <= n <= 4 && n <= data@.len() && v < 268435456,
{
    match scan_vlq(data) {
        Ok(x) => Ok(x),
        Err(f) => Err(fault_error(f)),
    }
}


/// The key by which note events are ordered: their time.
pub open spec fn event_time() -> spec_fn(MidiEvent) -> int {
    |e: MidiEvent| e.time as int
}

/// What tracks hold: note events timed in ticks and tempo changes.
pub struct TrackContent {
    pub events: Seq<TickEvent>,
    pub tempos: Seq<TempoChange>,
}

/// Nothing.
pub open spec fn no_content() -> TrackContent {
    TrackContent { events: seq![], tempos: seq![] }
}

/// The events and tempo changes of `a` followed by those of `b`.
pub open spec fn join_content(a: TrackContent, b: TrackContent) -> TrackContent {
    TrackContent { events: a.events + b.events, tempos: a.tempos + b.tempos }
}

/// `r` with the content `p` put in front of its content.
pub open spec fn prepend(p: TrackContent, r: Result<TrackContent, MidiFault>) -> Result<
    TrackContent,
    MidiFault,
> {
    match r {
        Ok(c) => Ok(join_content(p, c)),
        Err(f) => Err(f),
    }
}

/// A content of one note event.
pub open spec fn one_event(e: TickEvent) -> TrackContent {
    TrackContent { events: seq![e], tempos: seq![] }
}

/// A content of one tempo change.
pub open spec fn one_tempo(c: TempoChange) -> TrackContent {
    TrackContent { events: seq![], tempos: seq![c] }
}

/// The big-endian value of the three bytes from `i` to `i + 2`.
pub open spec fn be24(s: Seq<u8>, i: int) -> int {
    s[i] * 65536 + s[i + 1] * 256 + s[i + 2]
}

/// How much of `d` is left to scan from offset `off`.
pub open spec fn scan_measure(d: Seq<u8>, off: nat) -> nat {
    if off < d.len() {
        (d.len() - off) as nat
    } else {
        0
    }
}

/// A variable-length quantity that reads without fault has one to four bytes.
pub proof fn lemma_vlq_scan_len(s: Seq<u8>, i: nat)
    requires
        i <= 3,
    ensures
        vlq_scan(s, i) matches Ok((v, n)) ==> i + 1 <= n <= 4 && n <= s.len() && v == vlq_value(
            s,
            n,
        ) && v < 268435456,
    decreases 3 - i,
{
    if i < s.len() && s[i as int] >= 128 && i < 3 {
        lemma_vlq_scan_len(s, i + 1);
    }
    if i < s.len() && s[i as int] < 128 {
        lemma_vlq_value_bound(s, i + 1);
    }
}

proof fn lemma_vlq_value_bound(s: Seq<u8>, n: nat)
    requires
        n <= 4,
    ensures
        vlq_value(s, n) < if n == 0 {
            1int
        } else if n == 1 {
            128
        } else if n == 2 {
            16384
        } else if n == 3 {
            2097152
        } else {
            268435456
        },
    decreases n,
{
    if n > 0 {
        lemma_vlq_value_bound(s, (n - 1) as nat);
    }
}

/// The content of a track's data `d`, scanning from offset `off` at tick
/// `tick` with running status `last` (0 when there is none yet).
///
/// Each message is a variable-length delta time followed by a status byte
/// or, under running status, directly by its data bytes (`status_tail`).
/// Scanning stops at the end of the data.
#[verifier::opaque]
pub open spec fn track_scan(d: Seq<u8>, off: nat, tick: nat, last: u8) -> Result<
    TrackContent,
    MidiFault,
>
    decreases scan_measure(d, off), 0int,
{
    if off >= d.len() {
        Ok(no_content())
    } else {
        match read_vlq(d.skip(off as int)) {
            Err(f) => Err(f),
            Ok((delta, n)) => {
                proof {
                    lemma_vlq_scan_len(d.skip(off as int), 0);
                }
                let o1 = off + n;
                if o1 >= d.len() {
                    Ok(no_content())
                } else {
                    let b = d[o1 as int];
                    if b < 128 && last == 0 {
                        Err(MidiFault::RunningStatusWithoutStatus)
                    } else if b < 128 {
                        status_tail(d, o1, tick + delta, last)
                    } else {
                        status_tail(d, o1 + 1, tick + delta, b)
                    }
                }
            },
        }
    }
}

/// The content of a track from the bytes after the status of a message at
/// `o2` on, the message's delta time already counted into `t`:
/// - note-off (0x8n) gives a note-off event; note-on (0x9n) a note-on
///   event, or a note-off when its velocity is 0;
/// - aftertouch, control change and pitch bend (0xAn, 0xBn, 0xEn) skip two
///   data bytes, program change and channel pressure (0xCn, 0xDn) one;
/// - a meta event (0xFF) is read by `meta_tail`, a system exclusive
///   message (0xF0, 0xF7) by `sysex_tail`;
/// - other bytes, and channel messages cut off by the end of the data,
///   skip one byte.
pub open spec fn status_tail(d: Seq<u8>, o2: nat, t: nat, status: u8) -> Result<
    TrackContent,
    MidiFault,
>
    decreases scan_measure(d, o2), 2int,
{
    let kind = status / 16;
    if kind == 8 && o2 + 1 < d.len() {
        prepend(
            one_event(TickEvent { tick: t as u64, note: d[o2 as int], is_note_on: false, velocity: 0 }),
            track_scan(d, o2 + 2, t, status),
        )
    } else if kind == 9 && o2 + 1 < d.len() {
        prepend(
            one_event(
                TickEvent {
                    tick: t as u64,
                    note: d[o2 as int],
                    is_note_on: d[o2 + 1int] != 0,
                    velocity: d[o2 + 1int],
                },
            ),
            track_scan(d, o2 + 2, t, status),
        )
    } else if (kind == 10 || kind == 11 || kind == 14) && o2 + 1 < d.len() {
        track_scan(d, o2 + 2, t, status)
    } else if (kind == 12 || kind == 13) && o2 < d.len() {
        track_scan(d, o2 + 1, t, status)
    } else if status == 0xFF {
        meta_tail(d, o2, t, status)
    } else if status == 0xF0 || status == 0xF7 {
        sysex_tail(d, o2, t, status)
    } else if o2 < d.len() {
        track_scan(d, o2 + 1, t, status)
    } else {
        track_scan(d, o2, t, status)
    }
}

/// The content of a track from the type byte of a meta event at `o2` on.
/// The event has a type byte, a variable-length length and that many data
/// bytes; set tempo (type 0x51, length 3) gives a tempo change of the
/// three-byte big-endian value. A meta event cut off by the end of the data
/// before its length is complete ends the track.
pub open spec fn meta_tail(d: Seq<u8>, o2: nat, t: nat, status: u8) -> Result<
    TrackContent,
    MidiFault,
>
    decreases scan_measure(d, o2), 1int,
{
    if o2 >= d.len() {
        Ok(no_content())
    } else {
        match read_vlq(d.skip(o2 + 1int)) {
            Err(MidiFault::UnexpectedEnd) => Ok(no_content()),
            Err(f) => Err(f),
            Ok((l, n2)) => {
                proof {
                    lemma_vlq_scan_len(d.skip(o2 + 1int), 0);
                }
                let o3 = o2 + 1 + n2;
                let rest = track_scan(d, o3 + l, t, status);
                if d[o2 as int] == 0x51 && l == 3 && o3 + 3 <= d.len() {
                    prepend(
                        one_tempo(
                            TempoChange {
                                tick: t as u64,
                                micros_per_quarter: be24(d, o3 as int) as u32,
                            },
                        ),
                        rest,
                    )
                } else {
                    rest
                }
            },
        }
    }
}

/// The content of a track from the length of a system exclusive message
/// at `o2` on: a variable-length length and that many data bytes.
pub open spec fn sysex_tail(d: Seq<u8>, o2: nat, t: nat, status: u8) -> Result<
    TrackContent,
    MidiFault,
>
    decreases scan_measure(d, o2), 1int,
{
    if o2 >= d.len() {
        Err(MidiFault::UnexpectedEnd)
    } else {
        match read_vlq(d.skip(o2 as int)) {
            Err(f) => Err(f),
            Ok((l, n2)) => {
                proof {
                    lemma_vlq_scan_len(d.skip(o2 as int), 0);
                }
                track_scan(d, o2 + n2 + l, t, status)
            },
        }
    }
}

/// Past the end of the data there is nothing more.
pub proof fn lemma_track_scan_end(d: Seq<u8>, off: nat, tick: nat, last: u8)
    requires
        off >= d.len(),
    ensures
        track_scan(d, off, tick, last) == Ok::<TrackContent, MidiFault>(no_content()),
{
    reveal(track_scan);
}

proof fn lemma_prepend_assoc(a: TrackContent, b: TrackContent, r: Result<TrackContent, MidiFault>)
    ensures
        prepend(a, prepend(b, r)) == prepend(join_content(a, b), r),
{
    match r {
        Ok(c) => {
            assert(a.events + (b.events + c.events) =~= (a.events + b.events) + c.events);
            assert(a.tempos + (b.tempos + c.tempos) =~= (a.tempos + b.tempos) + c.tempos);
        },
        Err(_) => {},
    }
}

proof fn lemma_prepend_empty(r: Result<TrackContent, MidiFault>)
    ensures
        prepend(no_content(), r) == r,
{
    match r {
        Ok(c) => {
            assert(Seq::<TickEvent>::empty() + c.events =~= c.events);
            assert(Seq::<TempoChange>::empty() + c.tempos =~= c.tempos);
        },
        Err(_) => {},
    }
}

proof fn lemma_join_empty(a: TrackContent)
    ensures
        join_content(a, no_content()) == a,
{
    assert(a.events + Seq::<TickEvent>::empty() =~= a.events);
    assert(a.tempos + Seq::<TempoChange>::empty() =~= a.tempos);
}

/// The content of `events` and `tempos`.
pub open spec fn content_of(events: Seq<TickEvent>, tempos: Seq<TempoChange>) -> TrackContent {
    TrackContent { events, tempos }
}

/// Ticks of a track's events and tempo changes are at most `bound`.
pub open spec fn ticks_within(events: Seq<TickEvent>, tempos: Seq<TempoChange>, bound: nat) -> bool {
    &&& forall|i: int| 0 <= i < events.len() ==> (#[trigger] events[i]).tick <= bound
    &&& forall|i: int| 0 <= i < tempos.len() ==> (#[trigger] tempos[i]).tick <= bound
}

/// Tempo changes below 2^24 microseconds per quarter note.
pub open spec fn tempos_small(tempos: Seq<TempoChange>) -> bool {
    forall|i: int| 0 <= i < tempos.len() ==> (#[trigger] tempos[i]).micros_per_quarter < 0x1000000
}

/// One message of a track: the note event or tempo change it gives, and
/// where, at which tick and under which running status the next message
/// is read.
struct MessageStep {
    event: Option<TickEvent>,
    tempo: Option<TempoChange>,
    offset: usize,
    tick: u64,
    last: u8,
}

/// A sequence of what an option holds.
pub open spec fn option_seq<A>(o: Option<A>) -> Seq<A> {
    match o {
        Some(a) => seq![a],
        None => seq![],
    }
}

/// What a message gives.
spec fn step_piece(m: MessageStep) -> TrackContent {
    TrackContent { events: option_seq(m.event), tempos: option_seq(m.tempo) }
}

/// Reads the message at `offset` of a track's data.
#[verifier::spinoff_prover]
#[verifier::rlimit(60)]
fn read_message(data: &[u8], offset: usize, tick: u64, last: u8) -> (r: Result<
    Option<MessageStep>,
    MidiError,
>)
    requires
        data@.len() <= u32::MAX,
        offset < data@.len(),
        last == 0 || last >= 128,
        tick <= 268435456 * offset,
    ensures
        r matches Err(e) ==> track_scan(data@, offset as nat, tick as nat, last) matches Err(f)
            && reports(e, f),
        r matches Ok(None) ==> track_scan(data@, offset as nat, tick as nat, last) == Ok::<
            TrackContent,
            MidiFault,
        >(no_content()),
        r matches Ok(Some(m)) ==> {
            &&& track_scan(data@, offset as nat, tick as nat, last) == prepend(
                step_piece(m),
                track_scan(data@, m.offset as nat, m.tick as nat, m.last),
            )
            &&& m.offset > offset
            &&& m.last == 0 || m.last >= 128
            &&& tick <= m.tick <= 268435456 * m.offset
            &&& m.tick <= 268435456 * data@.len()
            &&& m.event matches Some(ev) ==> ev.tick == m.tick
            &&& m.tempo matches Some(tc) ==> tc.tick == m.tick && tc.micros_per_quarter < 0x1000000
        },
{
    proof {
        reveal(track_scan);
    }
    let rest = &data[offset..data.len()];
    assert(rest@ == data@.skip(offset as int));
    let (delta, bytes_read) = match read_variable_length(rest) {
        Ok(x) => x,
        Err(e) => {
            return Err(e);
        },
    };
    proof {
        lemma_vlq_scan_len(data@.skip(offset as int), 0);
    }
    let mut o = offset + bytes_read;
    let t = tick + delta as u64;
    if o >= data.len() {
        return Ok(None);
    }
    let mut byte = data[o];
    o += 1;
    let mut status_byte = last;
    if byte < 128 {
        if last == 0 {
            return Err(fault_error(MidiFault::RunningStatusWithoutStatus));
        }
        byte = last;
        o -= 1;
    } else {
        status_byte = byte;
    }
    let ghost tt = t as nat;
    let status = byte & 0xF0;
    assert(byte & 0xF0 == byte / 16 * 16) by (bit_vector);
    assert(track_scan(data@, offset as nat, tick as nat, last) == status_tail(data@, o as nat, tt, byte));
    if status == 0x80 && data.len() - o > 1 {
        let note = data[o];
        let ev = TickEvent { tick: t, note, is_note_on: false, velocity: 0 };
        Ok(Some(MessageStep { event: Some(ev), tempo: None, offset: o + 2, tick: t, last: status_byte }))
    } else if status == 0x90 && data.len() - o > 1 {
        let note = data[o];
        let velocity = data[o + 1];
        let ev = TickEvent { tick: t, note, is_note_on: velocity != 0, velocity };
        Ok(Some(MessageStep { event: Some(ev), tempo: None, offset: o + 2, tick: t, last: status_byte }))
    } else if (status == 0xA0 || status == 0xB0 || status == 0xE0) && data.len() - o > 1 {
        Ok(Some(MessageStep { event: None, tempo: None, offset: o + 2, tick: t, last: status_byte }))
    } else if (status == 0xC0 || status == 0xD0) && o < data.len() {
        Ok(Some(MessageStep { event: None, tempo: None, offset: o + 1, tick: t, last: status_byte }))
    } else if byte == 0xFF {
        // Meta event: type byte, length, data.
        assert(status_tail(data@, o as nat, tt, byte) == meta_tail(data@, o as nat, tt, byte));
        if o >= data.len() {
            return Ok(None);
        }
        let meta_type = data[o];
        let rest2 = &data[o + 1..data.len()];
        assert(rest2@ == data@.skip(o + 1int));
        let (len, n2) = match scan_vlq(rest2) {
            Ok(x) => x,
            Err(MidiFault::UnexpectedEnd) => {
                return Ok(None);
            },
            Err(f) => {
                return Err(fault_error(f));
            },
        };
        let o3 = o + 1 + n2;
        let ghost unsat = o3 + len;
        let next = o3.saturating_add(len as usize);
        proof {
            if next != unsat {
                lemma_track_scan_end(data@, next as nat, tt, byte);
                lemma_track_scan_end(data@, unsat as nat, tt, byte);
            }
        }
        if meta_type == 0x51 && len == 3 && data.len() - o3 >= 3 {
            let micros = (data[o3] as u32) * 65536 + (data[o3 + 1] as u32) * 256
                + (data[o3 + 2] as u32);
            let tc = TempoChange { tick: t, micros_per_quarter: micros };
            proof {
                assert(step_piece(MessageStep { event: None, tempo: Some(tc), offset: next, tick: t, last: status_byte }) == one_tempo(tc));
            }
            Ok(Some(MessageStep { event: None, tempo: Some(tc), offset: next, tick: t, last: status_byte }))
        } else {
            proof {
                lemma_prepend_empty(track_scan(data@, next as nat, tt, byte));
            }
            Ok(Some(MessageStep { event: None, tempo: None, offset: next, tick: t, last: status_byte }))
        }
    } else if byte == 0xF0 || byte == 0xF7 {
        // System exclusive: length, data.
        assert(status_tail(data@, o as nat, tt, byte) == sysex_tail(data@, o as nat, tt, byte));
        let rest2 = &data[o..data.len()];
        assert(rest2@ == data@.skip(o as int));
        let (len, n2) = match read_variable_length(rest2) {
            Ok(x) => x,
            Err(e) => {
                return Err(e);
            },
        };
        let ghost unsat = o + n2 + len;
        let next = (o + n2).saturating_add(len as usize);
        proof {
            if next != unsat {
                lemma_track_scan_end(data@, next as nat, tt, byte);
                lemma_track_scan_end(data@, unsat as nat, tt, byte);
            }
            lemma_prepend_empty(track_scan(data@, next as nat, tt, byte));
        }
        Ok(Some(MessageStep { event: None, tempo: None, offset: next, tick: t, last: status_byte }))
    } else if o < data.len() {
        Ok(Some(MessageStep { event: None, tempo: None, offset: o + 1, tick: t, last: status_byte }))
    } else {
        proof {
            lemma_track_scan_end(data@, o as nat, tt, byte);
        }
        Ok(None)
    }
}

/// Parses the note events and tempo changes of one track.
fn parse_track_events(data: &[u8]) -> (r: Result<(Vec<TickEvent>, Vec<TempoChange>), MidiError>)
    requires
        data@.len() <= u32::MAX,
    ensures
        match (r, track_scan(data@, 0, 0, 0)) {
            (Ok((v, w)), Ok(s)) => content_of(v@, w@) == s,
            (Err(e), Err(f)) => reports(e, f),
            _ => false,
        },
        r matches Ok((v, w)) ==> ticks_within(v@, w@, 268435456 * data@.len()) && tempos_small(
            w@,
        ),
{
    let mut events: Vec<TickEvent> = Vec::new();
    let mut tempos: Vec<TempoChange> = Vec::new();
    let mut offset: usize = 0;
    let mut tick: u64 = 0;
    let mut last_status: u8 = 0;
    proof {
        lemma_prepend_empty(track_scan(data@, 0, 0, 0));
        assert(content_of(events@, tempos@) == no_content());
    }
    while offset < data.len()
        invariant
            data@.len() <= u32::MAX,
            tick <= 268435456 * offset,
            offset < data@.len() ==> tick <= 268435456 * data@.len(),
            last_status == 0 || last_status >= 128,
            track_scan(data@, 0, 0, 0) == prepend(
                content_of(events@, tempos@),
                track_scan(data@, offset as nat, tick as nat, last_status),
            ),
            ticks_within(events@, tempos@, tick as nat),
            ticks_within(events@, tempos@, 268435456 * data@.len()),
            tempos_small(tempos@),
        decreases scan_measure(data@, offset as nat),
    {
        let ghost c0 = content_of(events@, tempos@);
        match read_message(data, offset, tick, last_status) {
            Err(e) => {
                return Err(e);
            },
            Ok(None) => {
                proof {
                    lemma_join_empty(c0);
                }
                return Ok((events, tempos));
            },
            Ok(Some(m)) => {
                let ghost rest = track_scan(data@, m.offset as nat, m.tick as nat, m.last);
                proof {
                    lemma_prepend_assoc(c0, step_piece(m), rest);
                }
                match m.event {
                    Some(ev) => {
                        events.push(ev);
                    },
                    None => {},
                }
                match m.tempo {
                    Some(tc) => {
                        tempos.push(tc);
                    },
                    None => {},
                }
                proof {
                    assert(c0.events + option_seq(m.event) =~= events@);
                    assert(c0.tempos + option_seq(m.tempo) =~= tempos@);
                }
                offset = m.offset;
                tick = m.tick;
                last_status = m.last;
            },
        }
    }
    proof {
        lemma_track_scan_end(data@, offset as nat, tick as nat, last_status);
        lemma_join_empty(content_of(events@, tempos@));
    }
    Ok((events, tempos))
}

/// A channel message at the start of a track, after its delta time, takes
/// exactly its status byte and its data bytes: reading goes on right after
/// them, at the tick advanced by the delta time and with the message's
/// status as running status. Program change and channel pressure (0xCn,
/// 0xDn) carry one data byte, all other channel messages two. Note-off
/// (0x8n) gives a note-off event of its first data byte; note-on (0x9n) an
/// event of its note and velocity, a note-on when the velocity is not 0;
/// the other channel messages give no event.
pub proof fn lemma_channel_message(
    delta: nat,
    s: u8,
    a: u8,
    b: u8,
    rest: Seq<u8>,
    tick: nat,
    last: u8,
)
    requires
        delta < 268435456,
        0x80 <= s < 0xF0,
        a < 128,
        b < 128,
    ensures
        ({
            let d = vlq_encode(delta) + seq![s, a, b] + rest;
            let k = vlq_encode(delta).len();
            let t = tick + delta;
            let tail = track_scan(d, k + 3, t, s);
            &&& 0x80 <= s < 0x90 ==> track_scan(d, 0, tick, last) == prepend(
                one_event(TickEvent { tick: t as u64, note: a, is_note_on: false, velocity: 0 }),
                tail,
            )
            &&& 0x90 <= s < 0xA0 ==> track_scan(d, 0, tick, last) == prepend(
                one_event(TickEvent { tick: t as u64, note: a, is_note_on: b != 0, velocity: b }),
                tail,
            )
            &&& (0xA0 <= s < 0xC0 || 0xE0 <= s < 0xF0) ==> track_scan(d, 0, tick, last) == tail
            &&& 0xC0 <= s < 0xE0 ==> track_scan(d, 0, tick, last) == track_scan(d, k + 2, t, s)
        }),
{
    reveal(track_scan);
    let e = vlq_encode(delta);
    let d = e + seq![s, a, b] + rest;
    lemma_vlq_roundtrip(delta, seq![s, a, b] + rest);
    assert(d =~= e + (seq![s, a, b] + rest));
    assert(d.skip(0) =~= d);
    let k = e.len();
    assert(d[k as int] == s);
    assert(d[k + 1int] == a);
    assert(d[k + 2int] == b);
    let t = tick + delta;
    assert(track_scan(d, 0, tick, last) == status_tail(d, k + 1, t, s));
}

proof fn lemma_scan_status(d: Seq<u8>, off: nat, tick: nat, last: u8, delta: nat, n: nat)
    requires
        off < d.len(),
        read_vlq(d.skip(off as int)) == Ok::<(nat, nat), MidiFault>((delta, n)),
        off + n < d.len(),
        d[(off + n) as int] >= 128,
    ensures
        track_scan(d, off, tick, last) == status_tail(d, off + n + 1, tick + delta, d[(off + n) as int]),
{
    reveal(track_scan);
}

proof fn lemma_sysex_step(d: Seq<u8>, o2: nat, t: nat, s: u8, l: nat, n2: nat)
    requires
        o2 < d.len(),
        read_vlq(d.skip(o2 as int)) == Ok::<(nat, nat), MidiFault>((l, n2)),
    ensures
        sysex_tail(d, o2, t, s) == track_scan(d, o2 + n2 + l, t, s),
{
    reveal(track_scan);
}

proof fn lemma_meta_step(d: Seq<u8>, o2: nat, t: nat, l: nat, n2: nat)
    requires
        o2 < d.len(),
        read_vlq(d.skip(o2 + 1int)) == Ok::<(nat, nat), MidiFault>((l, n2)),
    ensures
        ({
            let o3 = o2 + 1 + n2;
            let rest = track_scan(d, o3 + l, t, 0xFF);
            meta_tail(d, o2, t, 0xFF) == if d[o2 as int] == 0x51 && l == 3 && o3 + 3 <= d.len() {
                prepend(
                    one_tempo(
                        TempoChange {
                            tick: t as u64,
                            micros_per_quarter: be24(d, o3 as int) as u32,
                        },
                    ),
                    rest,
                )
            } else {
                rest
            }
        }),
{
    reveal(track_scan);
}

/// A meta event at the start of a track, after its delta time, takes its
/// status byte 0xFF, its type byte, its variable-length length and that
/// many data bytes: reading goes on right after them, at the tick advanced
/// by the delta time. A set-tempo event (type 0x51) of three data bytes
/// gives a tempo change at that tick of the bytes read big-endian; other
/// meta events give nothing.
pub proof fn lemma_meta_message(
    delta: nat,
    typ: u8,
    data: Seq<u8>,
    rest: Seq<u8>,
    tick: nat,
    last: u8,
)
    requires
        delta < 268435456,
        data.len() < 268435456,
    ensures
        ({
            let d = vlq_encode(delta) + seq![0xFFu8, typ] + vlq_encode(data.len()) + data + rest;
            let k = vlq_encode(delta).len() + 2 + vlq_encode(data.len()).len() + data.len();
            let t = tick + delta;
            let tail = track_scan(d, k, t, 0xFF);
            &&& typ == 0x51 && data.len() == 3 ==> track_scan(d, 0, tick, last) == prepend(
                one_tempo(
                    TempoChange {
                        tick: t as u64,
                        micros_per_quarter: (data[0] * 65536 + data[1] * 256 + data[2]) as u32,
                    },
                ),
                tail,
            )
            &&& !(typ == 0x51 && data.len() == 3) ==> track_scan(d, 0, tick, last) == tail
        }),
{
    let e = vlq_encode(delta);
    let f = vlq_encode(data.len());
    let d = e + seq![0xFFu8, typ] + f + data + rest;
    let after = seq![0xFFu8, typ] + f + data + rest;
    lemma_vlq_roundtrip(delta, after);
    assert(d =~= e + after);
    assert(d.skip(0) =~= d);
    let k = e.len();
    assert(d[k as int] == 0xFF);
    assert(d[k + 1int] == typ);
    lemma_vlq_roundtrip(data.len(), data + rest);
    assert(d.skip(k + 2int) =~= f + (data + rest));
    assert(read_vlq(d.skip(k + 2int)) == Ok::<(nat, nat), MidiFault>((data.len(), f.len())));
    let t = tick + delta;
    lemma_scan_status(d, 0, tick, last, delta, k);
    lemma_vlq_scan_len(f + (data + rest), 0);
    assert(d.len() == k + 2 + f.len() + data.len() + rest.len());
    assert(status_tail(d, (k + 1) as nat, t, 0xFF) == meta_tail(d, (k + 1) as nat, t, 0xFF));
    lemma_meta_step(d, (k + 1) as nat, t, data.len(), f.len());
    let o3 = k + 2 + f.len();
    assert((k + 1) + 1 + f.len() + data.len() == o3 + data.len());
    if data.len() == 3 {
        assert(d[o3 as int] == data[0]);
        assert(d[o3 + 1int] == data[1]);
        assert(d[o3 + 2int] == data[2]);
    }
}

/// A system exclusive message (0xF0 or 0xF7) at the start of a track,
/// after its delta time, takes its status byte, its variable-length length
/// and that many data bytes, and gives nothing.
pub proof fn lemma_sysex_message(
    delta: nat,
    s: u8,
    data: Seq<u8>,
    rest: Seq<u8>,
    tick: nat,
    last: u8,
)
    requires
        delta < 268435456,
        data.len() < 268435456,
        s == 0xF0 || s == 0xF7,
    ensures
        ({
            let d = vlq_encode(delta) + seq![s] + vlq_encode(data.len()) + data + rest;
            let k = vlq_encode(delta).len() + 1 + vlq_encode(data.len()).len() + data.len();
            track_scan(d, 0, tick, last) == track_scan(d, k, tick + delta, s)
        }),
{
    let e = vlq_encode(delta);
    let f = vlq_encode(data.len());
    let d = e + seq![s] + f + data + rest;
    let after = seq![s] + f + data + rest;
    lemma_vlq_roundtrip(delta, after);
    assert(d =~= e + after);
    assert(d.skip(0) =~= d);
    let k = e.len();
    assert(d[k as int] == s);
    lemma_vlq_roundtrip(data.len(), data + rest);
    assert(d.skip(k + 1int) =~= f + (data + rest));
    assert(read_vlq(d.skip(k + 1int)) == Ok::<(nat, nat), MidiFault>((data.len(), f.len())));
    let t = tick + delta;
    lemma_scan_status(d, 0, tick, last, delta, k);
    lemma_vlq_scan_len(f + (data + rest), 0);
    assert(d.len() == k + 1 + f.len() + data.len() + rest.len());
    assert(status_tail(d, (k + 1) as nat, t, s) == sysex_tail(d, (k + 1) as nat, t, s));
    lemma_sysex_step(d, (k + 1) as nat, t, s, data.len(), f.len());
}

/// The faults that reading the messages of a track can meet.
pub open spec fn track_fault(f: MidiFault) -> bool {
    f is RunningStatusWithoutStatus || f is VarLenTooLong || f is UnexpectedEnd
}

/// Note events in nondecreasing order of tick, none before `tick`, each a
/// note-on exactly when its velocity is not 0.
pub open spec fn events_in_order(events: Seq<TickEvent>, tick: int) -> bool {
    &&& forall|i: int, j: int| 0 <= i <= j < events.len() ==> events[i].tick <= events[j].tick
    &&& forall|i: int| 0 <= i < events.len() ==> tick <= (#[trigger] events[i]).tick
    &&& forall|i: int|
        0 <= i < events.len() ==> (#[trigger] events[i]).is_note_on == (events[i].velocity != 0)
}

/// Tempo changes in nondecreasing order of tick, none before `tick`.
pub open spec fn tempos_in_order(tempos: Seq<TempoChange>, tick: int) -> bool {
    &&& forall|i: int, j: int| 0 <= i <= j < tempos.len() ==> tempos[i].tick <= tempos[j].tick
    &&& forall|i: int| 0 <= i < tempos.len() ==> tick <= (#[trigger] tempos[i]).tick
}

/// What a scan gives, in order from `tick` on.
pub open spec fn scan_in_order(r: Result<TrackContent, MidiFault>, tick: int) -> bool {
    &&& r matches Err(f) ==> track_fault(f)
    &&& r matches Ok(c) ==> events_in_order(c.events, tick) && tempos_in_order(c.tempos, tick)
}

proof fn lemma_vlq_faults(s: Seq<u8>, i: nat)
    ensures
        vlq_scan(s, i) matches Err(f) ==> f is VarLenTooLong || f is UnexpectedEnd,
    decreases 3 - i,
{
    if i < s.len() && s[i as int] >= 128 && i < 3 {
        lemma_vlq_faults(s, i + 1);
    }
}

proof fn lemma_in_order_later(r: Result<TrackContent, MidiFault>, tick: int, t: int)
    requires
        tick <= t,
        scan_in_order(r, t),
    ensures
        scan_in_order(r, tick),
{
}

proof fn lemma_in_order_event(ev: TickEvent, r: Result<TrackContent, MidiFault>, tick: int)
    requires
        tick <= ev.tick,
        ev.is_note_on == (ev.velocity != 0),
        scan_in_order(r, ev.tick as int),
    ensures
        scan_in_order(prepend(one_event(ev), r), tick),
{
    if let Ok(c) = r {
        let es = seq![ev] + c.events;
        assert forall|i: int, j: int| 0 <= i <= j < es.len() implies es[i].tick <= es[j].tick by {
            if i > 0 {
                assert(es[i] == c.events[i - 1]);
                assert(es[j] == c.events[j - 1]);
            } else if j > 0 {
                assert(es[j] == c.events[j - 1]);
            }
        }
        assert forall|i: int| 0 <= i < es.len() implies tick <= (#[trigger] es[i]).tick && es[i].is_note_on
            == (es[i].velocity != 0) by {
            if i > 0 {
                assert(es[i] == c.events[i - 1]);
            }
        }
        assert(Seq::<TempoChange>::empty() + c.tempos =~= c.tempos);
    }
}

proof fn lemma_in_order_tempo(tc: TempoChange, r: Result<TrackContent, MidiFault>, tick: int)
    requires
        tick <= tc.tick,
        scan_in_order(r, tc.tick as int),
    ensures
        scan_in_order(prepend(one_tempo(tc), r), tick),
{
    if let Ok(c) = r {
        let ts = seq![tc] + c.tempos;
        assert forall|i: int, j: int| 0 <= i <= j < ts.len() implies ts[i].tick <= ts[j].tick by {
            if i > 0 {
                assert(ts[i] == c.tempos[i - 1]);
                assert(ts[j] == c.tempos[j - 1]);
            } else if j > 0 {
                assert(ts[j] == c.tempos[j - 1]);
            }
        }
        assert forall|i: int| 0 <= i < ts.len() implies tick <= (#[trigger] ts[i]).tick by {
            if i > 0 {
                assert(ts[i] == c.tempos[i - 1]);
            }
        }
        assert(Seq::<TickEvent>::empty() + c.events =~= c.events);
    }
}

/// Reading a track meets no fault but those of its messages. The note
/// events it gives come in the order of the messages in the data, which is
/// nondecreasing order of tick, from the tick where reading starts on;
/// each is a note-on exactly when its velocity is not 0. The same order
/// holds for the tempo changes.
#[verifier::rlimit(40)]
pub proof fn lemma_track_scan_in_order(d: Seq<u8>, off: nat, tick: nat, last: u8)
    requires
        d.len() <= u32::MAX,
        tick <= 268435456 * off,
    ensures
        scan_in_order(track_scan(d, off, tick, last), tick as int),
    decreases scan_measure(d, off),
{
    reveal(track_scan);
    if off < d.len() {
        lemma_vlq_faults(d.skip(off as int), 0);
        lemma_vlq_scan_len(d.skip(off as int), 0);
        if let Ok((delta, n)) = read_vlq(d.skip(off as int)) {
            let o1 = off + n;
            if o1 < d.len() {
                let b = d[o1 as int];
                if !(b < 128 && last == 0) {
                    let status: u8 = if b < 128 {
                        last
                    } else {
                        b
                    };
                    let o2: nat = if b < 128 {
                        o1
                    } else {
                        o1 + 1
                    };
                    let t = tick + delta;
                    assert(t <= 268435456 * o1);
                    assert(t < 0x10000000000000000);
                    let kind = status / 16;
                    assert(track_scan(d, off, tick, last) == status_tail(d, o2, t, status));
                    if kind == 8 && o2 + 1 < d.len() {
                        lemma_track_scan_in_order(d, o2 + 2, t, status);
                        let ev = TickEvent {
                            tick: t as u64,
                            note: d[o2 as int],
                            is_note_on: false,
                            velocity: 0,
                        };
                        lemma_in_order_event(ev, track_scan(d, o2 + 2, t, status), tick as int);
                    } else if kind == 9 && o2 + 1 < d.len() {
                        lemma_track_scan_in_order(d, o2 + 2, t, status);
                        let ev = TickEvent {
                            tick: t as u64,
                            note: d[o2 as int],
                            is_note_on: d[o2 + 1int] != 0,
                            velocity: d[o2 + 1int],
                        };
                        lemma_in_order_event(ev, track_scan(d, o2 + 2, t, status), tick as int);
                    } else if (kind == 10 || kind == 11 || kind == 14) && o2 + 1 < d.len() {
                        lemma_track_scan_in_order(d, o2 + 2, t, status);
                        lemma_in_order_later(track_scan(d, o2 + 2, t, status), tick as int, t as int);
                    } else if (kind == 12 || kind == 13) && o2 < d.len() {
                        lemma_track_scan_in_order(d, o2 + 1, t, status);
                        lemma_in_order_later(track_scan(d, o2 + 1, t, status), tick as int, t as int);
                    } else if status == 0xFF {
                        assert(status_tail(d, o2, t, status) == meta_tail(d, o2, t, status));
                        if o2 < d.len() {
                            lemma_vlq_faults(d.skip(o2 + 1int), 0);
                            lemma_vlq_scan_len(d.skip(o2 + 1int), 0);
                            if let Ok((l, n2)) = read_vlq(d.skip(o2 + 1int)) {
                                let o3 = o2 + 1 + n2;
                                let rest = track_scan(d, o3 + l, t, status);
                                lemma_track_scan_in_order(d, o3 + l, t, status);
                                lemma_in_order_later(rest, tick as int, t as int);
                                if d[o2 as int] == 0x51 && l == 3 && o3 + 3 <= d.len() {
                                    let tc = TempoChange {
                                        tick: t as u64,
                                        micros_per_quarter: be24(d, o3 as int) as u32,
                                    };
                                    lemma_in_order_tempo(tc, rest, tick as int);
                                }
                            }
                        }
                    } else if status == 0xF0 || status == 0xF7 {
                        assert(status_tail(d, o2, t, status) == sysex_tail(d, o2, t, status));
                        lemma_vlq_faults(d.skip(o2 as int), 0);
                        lemma_vlq_scan_len(d.skip(o2 as int), 0);
                        if let Ok((l, n2)) = read_vlq(d.skip(o2 as int)) {
                            lemma_track_scan_in_order(d, o2 + n2 + l, t, status);
                            lemma_in_order_later(
                                track_scan(d, o2 + n2 + l, t, status),
                                tick as int,
                                t as int,
                            );
                        }
                    } else if o2 < d.len() {
                        lemma_track_scan_in_order(d, o2 + 1, t, status);
                        lemma_in_order_later(track_scan(d, o2 + 1, t, status), tick as int, t as int);
                    } else {
                        lemma_track_scan_end(d, o2, t, status);
                    }
                }
            }
        }
    }
}

/// The bytes at `off` spell the given four-character chunk tag.
pub open spec fn has_tag(d: Seq<u8>, off: int, a: u8, b: u8, c: u8, e: u8) -> bool {
    d[off] == a && d[off + 1] == b && d[off + 2] == c && d[off + 3] == e
}

/// The content of the track chunks of `d` from offset `off` on, reading at
/// most `remaining` tracks. Reading stops early where fewer than eight bytes
/// remain for a chunk header.
pub open spec fn tracks_scan(d: Seq<u8>, off: nat, remaining: nat) -> Result<
    TrackContent,
    MidiFault,
>
    decreases remaining,
{
    if remaining == 0 || off + 8 > d.len() {
        Ok(no_content())
    } else if !has_tag(d, off as int, 0x4D, 0x54, 0x72, 0x6B) {
        Err(MidiFault::MissingTrackHeader)
    } else {
        let end = off + 8 + be32(d, off + 4int);
        if end > d.len() {
            Err(MidiFault::TrackPastEnd)
        } else {
            match track_scan(d.subrange(off + 8int, end), 0, 0, 0) {
                Err(f) => Err(f),
                Ok(c) => prepend(c, tracks_scan(d, end as nat, (remaining - 1) as nat)),
            }
        }
    }
}

/// A song as its bytes give it.
pub struct SongSpec {
    pub division: u16,
    pub tempos: Seq<TempoChange>,
    pub events: Seq<MidiEvent>,
}

/// A track event timed in microseconds under a tempo map.
pub open spec fn timed_event(e: TickEvent, tempos: Seq<TempoChange>, division: u16) -> MidiEvent {
    MidiEvent {
        time: micros_at(tempos, division, e.tick as int) as u128,
        note: e.note,
        is_note_on: e.is_note_on,
        velocity: e.velocity,
    }
}

/// Track events timed in microseconds under a tempo map.
pub open spec fn timed_events(events: Seq<TickEvent>, tempos: Seq<TempoChange>, division: u16) -> Seq<
    MidiEvent,
> {
    events.map_values(|e: TickEvent| timed_event(e, tempos, division))
}

/// What a MIDI file's bytes hold: the division field of its header, the
/// tempo changes of its tracks stably sorted by tick, and the note events
/// of its tracks timed by that tempo map and stably sorted by time; or the
/// fault that stops the reading. A division of 0 gives no time base, so a
/// song with note events and division 0 is refused.
pub open spec fn midi_spec(d: Seq<u8>) -> Result<SongSpec, MidiFault> {
    if d.len() < 14 {
        Err(MidiFault::FileTooShort)
    } else if !has_tag(d, 0, 0x4D, 0x54, 0x68, 0x64) {
        Err(MidiFault::MissingHeader)
    } else if be32(d, 4) < 6 {
        Err(MidiFault::HeaderTooShort)
    } else if be16(d, 8) > 2 {
        Err(MidiFault::UnsupportedFormat(be16(d, 8) as u16))
    } else {
        match tracks_scan(d, 14, be16(d, 10) as nat) {
            Err(f) => Err(f),
            Ok(c) => {
                let division = be16(d, 12) as u16;
                if division == 0 && c.events.len() > 0 {
                    Err(MidiFault::ZeroDivision)
                } else {
                    let tempos = sort_by_key(c.tempos, tempo_tick());
                    Ok(
                        SongSpec {
                            division,
                            tempos,
                            events: sort_by_key(timed_events(c.events, tempos, division), event_time()),
                        },
                    )
                }
            },
        }
    }
}

/// Reads the track chunks that follow the header.
fn collect_tracks(data: &[u8], num_tracks: u16) -> (r: Result<
    (Vec<TickEvent>, Vec<TempoChange>),
    MidiError,
>)
    requires
        14 <= data@.len() <= u32::MAX,
    ensures
        match (r, tracks_scan(data@, 14, num_tracks as nat)) {
            (Ok((v, w)), Ok(s)) => content_of(v@, w@) == s,
            (Err(e), Err(f)) => reports(e, f),
            _ => false,
        },
        r matches Ok((v, w)) ==> ticks_within(v@, w@, 268435456 * data@.len()) && tempos_small(
            w@,
        ),
{
    let mut events: Vec<TickEvent> = Vec::new();
    let mut tempos: Vec<TempoChange> = Vec::new();
    let mut offset: usize = 14;
    let mut track: u16 = 0;
    proof {
        lemma_prepend_empty(tracks_scan(data@, 14, num_tracks as nat));
        assert(content_of(events@, tempos@) == no_content());
    }
    while track < num_tracks
        invariant
            14 <= data@.len() <= u32::MAX,
            offset <= data@.len(),
            track <= num_tracks,
            tracks_scan(data@, 14, num_tracks as nat) == prepend(
                content_of(events@, tempos@),
                tracks_scan(data@, offset as nat, (num_tracks - track) as nat),
            ),
            ticks_within(events@, tempos@, 268435456 * data@.len()),
            tempos_small(tempos@),
        decreases num_tracks - track,
    {
        let ghost c0 = content_of(events@, tempos@);
        if data.len() - offset < 8 {
            proof {
                lemma_join_empty(c0);
            }
            return Ok((events, tempos));
        }
        if !(data[offset] == 0x4D && data[offset + 1] == 0x54 && data[offset + 2] == 0x72
            && data[offset + 3] == 0x6B) {
            return Err(fault_error(MidiFault::MissingTrackHeader));
        }
        let track_len = read_u32be(&data[offset + 4..offset + 8]);
        let start = offset + 8;
        let track_end: u64 = start as u64 + track_len as u64;
        if track_end > data.len() as u64 {
            return Err(fault_error(MidiFault::TrackPastEnd));
        }
        let (mut track_events, mut track_tempos) = match parse_track_events(
            &data[start..track_end as usize],
        ) {
            Ok(x) => x,
            Err(e) => {
                return Err(e);
            },
        };
        let ghost tc = content_of(track_events@, track_tempos@);
        events.append(&mut track_events);
        tempos.append(&mut track_tempos);
        proof {
            lemma_prepend_assoc(
                c0,
                tc,
                tracks_scan(data@, track_end as nat, (num_tracks - track - 1) as nat),
            );
            assert(content_of(events@, tempos@) == join_content(c0, tc));
        }
        offset = track_end as usize;
        track += 1;
    }
    proof {
        lemma_join_empty(content_of(events@, tempos@));
    }
    Ok((events, tempos))
}

/// Note events each a note-on exactly when its velocity is not 0.
pub open spec fn on_iff_velocity(events: Seq<TickEvent>) -> bool {
    forall|i: int|
        0 <= i < events.len() ==> (#[trigger] events[i]).is_note_on == (events[i].velocity != 0)
}

/// Reading the track chunks meets no fault but a missing or overlong chunk
/// and the faults of messages; the note events it gives are each a note-on
/// exactly when their velocity is not 0.
proof fn lemma_tracks_scan_facts(d: Seq<u8>, off: nat, remaining: nat)
    requires
        d.len() <= u32::MAX,
    ensures
        tracks_scan(d, off, remaining) matches Err(f) ==> track_fault(f) || f is MissingTrackHeader
            || f is TrackPastEnd,
        tracks_scan(d, off, remaining) matches Ok(c) ==> on_iff_velocity(c.events),
    decreases remaining,
{
    if !(remaining == 0 || off + 8 > d.len()) && has_tag(d, off as int, 0x4D, 0x54, 0x72, 0x6B) {
        let end = off + 8 + be32(d, off + 4int);
        if end <= d.len() {
            lemma_track_scan_in_order(d.subrange(off + 8int, end), 0, 0, 0);
            lemma_tracks_scan_facts(d, end as nat, (remaining - 1) as nat);
            if let Ok(c) = track_scan(d.subrange(off + 8int, end), 0, 0, 0) {
                if let Ok(c2) = tracks_scan(d, end as nat, (remaining - 1) as nat) {
                    let es = c.events + c2.events;
                    assert forall|i: int| 0 <= i < es.len() implies (#[trigger] es[i]).is_note_on
                        == (es[i].velocity != 0) by {
                        if i >= c.events.len() {
                            assert(es[i] == c2.events[i - c.events.len()]);
                        }
                    }
                }
            }
        }
    }
}

/// The header of a MIDI file is good: long enough, tagged "MThd", with a
/// header length of at least 6.
pub open spec fn header_ok(d: Seq<u8>) -> bool {
    d.len() >= 14 && has_tag(d, 0, 0x4D, 0x54, 0x68, 0x64) && be32(d, 4) >= 6
}

/// A file is refused as unsupported exactly when its header is good and
/// its format field is above 2, and then with that format. Every other
/// refusal (a bad header, a bad track chunk, a bad message, or note events
/// without a time base) is a fault that `parse_midi_bytes` reports as
/// invalid MIDI.
pub proof fn lemma_midi_faults(d: Seq<u8>)
    requires
        d.len() <= u32::MAX,
    ensures
        !header_ok(d) ==> (midi_spec(d) matches Err(f) && !(f is UnsupportedFormat)),
        header_ok(d) ==> (be16(d, 8) > 2 <==> midi_spec(d) == Err::<SongSpec, MidiFault>(
            MidiFault::UnsupportedFormat(be16(d, 8) as u16),
        )),
        midi_spec(d) matches Err(MidiFault::UnsupportedFormat(x)) ==> header_ok(d) && be16(d, 8)
            > 2 && x == be16(d, 8),
        forall|e: MidiError, f: MidiFault|
            #![trigger reports(e, f)]
            midi_spec(d) == Err::<SongSpec, MidiFault>(f) && !(f is UnsupportedFormat) && reports(
                e,
                f,
            ) ==> e is InvalidMidi,
{
    if header_ok(d) && be16(d, 8) <= 2 {
        lemma_tracks_scan_facts(d, 14, be16(d, 10) as nat);
    }
}

/// A file reads as a song only with the header tag "MThd", a header length
/// of at least 6 and a format of at most 2; the song's division is the
/// big-endian 16-bit value of bytes 12 and 13.
pub proof fn lemma_song_header(d: Seq<u8>)
    ensures
        midi_spec(d) matches Ok(song) ==> {
            &&& d.len() >= 14
            &&& d[0] == 0x4D && d[1] == 0x54 && d[2] == 0x68 && d[3] == 0x64
            &&& d[4] * 16777216 + d[5] * 65536 + d[6] * 256 + d[7] >= 6
            &&& d[8] * 256 + d[9] <= 2
            &&& song.division == d[12] * 256 + d[13]
        },
{
}

/// The note events of a song are the timed note events of its tracks, in
/// nondecreasing order of time, stably sorted: events of equal time keep
/// the order of their tracks in the file and their order within a track.
/// Each is a note-on exactly when its velocity is not 0. The tempo map is
/// in nondecreasing order of tick.
pub proof fn lemma_song_events(d: Seq<u8>)
    requires
        d.len() <= u32::MAX,
    ensures
        match (midi_spec(d), tracks_scan(d, 14, be16(d, 10) as nat)) {
            (Ok(song), Ok(c)) => {
                let timed = timed_events(c.events, song.tempos, song.division);
                &&& sorted_by_key(song.events, event_time())
                &&& song.events.to_multiset() == timed.to_multiset()
                &&& forall|k: int| #[trigger]
                    with_key(song.events, event_time(), k) == with_key(timed, event_time(), k)
                &&& forall|i: int|
                    0 <= i < song.events.len() ==> (#[trigger] song.events[i]).is_note_on == (
                    song.events[i].velocity != 0)
                &&& sorted_by_key(song.tempos, tempo_tick())
                &&& song.tempos.to_multiset() == c.tempos.to_multiset()
            },
            _ => true,
        },
{
    broadcast use vstd::seq_lib::group_to_multiset_ensures;

    if let (Ok(song), Ok(c)) = (midi_spec(d), tracks_scan(d, 14, be16(d, 10) as nat)) {
        let timed = timed_events(c.events, song.tempos, song.division);
        lemma_sort_by_key(timed, event_time());
        lemma_sort_by_key(c.tempos, tempo_tick());
        lemma_tracks_scan_facts(d, 14, be16(d, 10) as nat);
        assert forall|k: int| #[trigger]
            with_key(song.events, event_time(), k) == with_key(timed, event_time(), k) by {
            lemma_sort_stable(timed, event_time(), k);
        }
        assert forall|i: int| 0 <= i < song.events.len() implies (#[trigger] song.events[i]).is_note_on
            == (song.events[i].velocity != 0) by {
            assert(song.events.to_multiset().count(song.events[i]) > 0);
            assert(timed.contains(song.events[i]));
            let k = choose|k: int| 0 <= k < timed.len() && timed[k] == song.events[i];
            assert(timed[k] == timed_event(c.events[k], song.tempos, song.division));
        }
    }
}

/// Stable insertion sort of note events by time.
fn sort_events(v: Vec<MidiEvent>) -> (r: Vec<MidiEvent>)
    ensures
        r@ == sort_by_key(v@, event_time()),
{
    let mut out: Vec<MidiEvent> = Vec::new();
    let mut i: usize = 0;
    while i < v.len()
        invariant
            i <= v@.len(),
            out@ == sort_by_key(v@.take(i as int), event_time()),
        decreases v.len() - i,
    {
        let x = v[i];
        let mut p: usize = out.len();
        while p > 0 && out[p - 1].time > x.time
            invariant
                p <= out@.len(),
                forall|j: int| p <= j < out@.len() ==> out@[j].time > x.time,
            decreases p,
        {
            p -= 1;
        }
        proof {
            lemma_insert_at(out@, x, event_time(), p as int);
            assert(v@.take(i + 1).drop_last() =~= v@.take(i as int));
            assert(out@.insert(p as int, x) =~= out@.take(p as int).push(x) + out@.skip(p as int));
        }
        out.insert(p, x);
        i += 1;
    }
    assert(v@.take(v@.len() as int) =~= v@);
    out
}

/// Stable insertion sort of tempo changes by tick.
fn sort_tempos(v: Vec<TempoChange>) -> (r: Vec<TempoChange>)
    ensures
        r@ == sort_by_key(v@, tempo_tick()),
{
    let mut out: Vec<TempoChange> = Vec::new();
    let mut i: usize = 0;
    while i < v.len()
        invariant
            i <= v@.len(),
            out@ == sort_by_key(v@.take(i as int), tempo_tick()),
        decreases v.len() - i,
    {
        let x = v[i];
        let mut p: usize = out.len();
        while p > 0 && out[p - 1].tick > x.tick
            invariant
                p <= out@.len(),
                forall|j: int| p <= j < out@.len() ==> out@[j].tick > x.tick,
            decreases p,
        {
            p -= 1;
        }
        proof {
            lemma_insert_at(out@, x, tempo_tick(), p as int);
            assert(v@.take(i + 1).drop_last() =~= v@.take(i as int));
            assert(out@.insert(p as int, x) =~= out@.take(p as int).push(x) + out@.skip(p as int));
        }
        out.insert(p, x);
        i += 1;
    }
    assert(v@.take(v@.len() as int) =~= v@);
    out
}

/// Parse MIDI from bytes: the header's division, the tempo map and the note
/// events of all tracks, sorted by time.
pub fn parse_midi_bytes(data: &[u8]) -> (r: Result<MidiSong, MidiError>)
    requires
        data@.len() <= u32::MAX,
    ensures
        match (r, midi_spec(data@)) {
            (Ok(song), Ok(s)) => song.division == s.division && song.tempos@ == s.tempos
                && song.events@ == s.events,
            (Err(e), Err(f)) => reports(e, f),
            _ => false,
        },
        r matches Ok(song) ==> sorted_by_key(song.events@, event_time()),
        r matches Ok(song) ==> forall|i: int|
            0 <= i < song.events@.len() ==> song.events@[i].time <= max_micros(),
{
    if data.len() < 14 {
        return Err(fault_error(MidiFault::FileTooShort));
    }
    if !(data[0] == 0x4D && data[1] == 0x54 && data[2] == 0x68 && data[3] == 0x64) {
        return Err(fault_error(MidiFault::MissingHeader));
    }
    let header_len = read_u32be(&data[4..8]);
    if header_len < 6 {
        return Err(fault_error(MidiFault::HeaderTooShort));
    }
    let format = read_u16be(&data[8..10]);
    let num_tracks = read_u16be(&data[10..12]);
    let division = read_u16be(&data[12..14]);
    if format > 2 {
        return Err(fault_error(MidiFault::UnsupportedFormat(format)));
    }
    let (raw_events, raw_tempos) = match collect_tracks(data, num_tracks) {
        Ok(x) => x,
        Err(e) => {
            return Err(e);
        },
    };
    if division == 0 && raw_events.len() > 0 {
        return Err(fault_error(MidiFault::ZeroDivision));
    }
    let ghost rt = raw_tempos@;
    let tempos = sort_tempos(raw_tempos);
    proof {
        broadcast use vstd::seq_lib::group_to_multiset_ensures;

        lemma_sort_by_key(rt, tempo_tick());
        assert(data@.len() <= 0x100000000);
        assert forall|i: int| 0 <= i < tempos@.len() implies (#[trigger] tempos@[i]).tick
            <= max_tick() && tempos@[i].micros_per_quarter < 0x1000000 by {
            assert(tempos@.to_multiset().count(tempos@[i]) > 0);
            assert(rt.contains(tempos@[i]));
            let k = choose|k: int| 0 <= k < rt.len() && rt[k] == tempos@[i];
            assert(rt[k].tick <= 268435456 * data@.len());
        }
    }
    let ghost te = tempos@;
    let mut timed: Vec<MidiEvent> = Vec::new();
    let mut i: usize = 0;
    while i < raw_events.len()
        invariant
            i <= raw_events@.len(),
            te == tempos@,
            tempo_map_ok(te),
            raw_events@.len() > 0 ==> division > 0,
            data@.len() <= u32::MAX,
            ticks_within(raw_events@, Seq::empty(), 268435456 * data@.len()),
            timed@ == timed_events(raw_events@.take(i as int), te, division),
            forall|j: int| 0 <= j < timed@.len() ==> (#[trigger] timed@[j]).time <= max_micros(),
        decreases raw_events.len() - i,
    {
        let e = raw_events[i];
        assert(e.tick <= 268435456 * data@.len());
        let time = tick_to_micros(&tempos, division, e.tick);
        timed.push(MidiEvent { time, note: e.note, is_note_on: e.is_note_on, velocity: e.velocity });
        assert(timed@ =~= timed_events(raw_events@.take(i + 1), te, division));
        i += 1;
    }
    assert(raw_events@.take(raw_events@.len() as int) =~= raw_events@);
    let ghost unsorted = timed@;
    let events = sort_events(timed);
    proof {
        broadcast use vstd::seq_lib::group_to_multiset_ensures;

        lemma_sort_by_key(unsorted, event_time());
        assert forall|i: int| 0 <= i < events@.len() implies events@[i].time <= max_micros() by {
            assert(events@.to_multiset().count(events@[i]) > 0);
            assert(unsorted.contains(events@[i]));
        }
    }
    Ok(MidiSong { division, tempos, events })
}

/// The name of pitch class `i` (0 is C, 11 is B), sharps for the black keys.
pub open spec fn pitch_name(i: nat) -> Seq<char> {
    if i == 0 {
        seq!['C']
    } else if i == 1 {
        seq!['C', '#']
    } else if i == 2 {
        seq!['D']
    } else if i == 3 {
        seq!['D', '#']
    } else if i == 4 {
        seq!['E']
    } else if i == 5 {
        seq!['F']
    } else if i == 6 {
        seq!['F', '#']
    } else if i == 7 {
        seq!['G']
    } else if i == 8 {
        seq!['G', '#']
    } else if i == 9 {
        seq!['A']
    } else if i == 10 {
        seq!['A', '#']
    } else {
        seq!['B']
    }
}

/// The pitch classes are named C C# D D# E F F# G G# A A# B.
pub proof fn lemma_pitch_names()
    ensures
        pitch_name(0) == seq!['C'],
        pitch_name(1) == seq!['C', '#'],
        pitch_name(2) == seq!['D'],
        pitch_name(3) == seq!['D', '#'],
        pitch_name(4) == seq!['E'],
        pitch_name(5) == seq!['F'],
        pitch_name(6) == seq!['F', '#'],
        pitch_name(7) == seq!['G'],
        pitch_name(8) == seq!['G', '#'],
        pitch_name(9) == seq!['A'],
        pitch_name(10) == seq!['A', '#'],
        pitch_name(11) == seq!['B'],
{
}

/// A note's name is its pitch class name followed by its octave, where
/// octave 4 starts at note 60 (middle C): note `12 * (o + 1) + p` is named
/// by pitch class `p` and octave `o`, written in decimal with a minus sign
/// for octave -1.
pub proof fn lemma_note_name_octave(o: int, p: int)
    requires
        -1 <= o,
        0 <= p < 12,
        12 * (o + 1) + p <= 255,
    ensures
        spec_note_name((12 * (o + 1) + p) as u8) == pitch_name(p as nat) + if o < 0 {
            seq!['-', '1']
        } else {
            decimal(o as nat)
        },
{
    let n = (12 * (o + 1) + p) as u8;
    assert(n % 12 == p && n / 12 == o + 1);
    if o < 0 {
        reveal_with_fuel(decimal, 2);
        assert(decimal(1) == seq![digit_char(1)]);
        assert(digit_char(1) == '1');
    }
}

/// The character of decimal digit `d`.
pub open spec fn digit_char(d: nat) -> char {
    (d + 48) as char
}

/// The decimal digits of `n`, without leading zeros.
pub open spec fn decimal(n: nat) -> Seq<char>
    decreases n,
{
    if n < 10 {
        seq![digit_char(n)]
    } else {
        decimal(n / 10).push(digit_char(n % 10))
    }
}

/// The decimal form of an integer, with a minus sign when negative.
pub open spec fn int_decimal(i: int) -> Seq<char> {
    if i < 0 {
        seq!['-'] + decimal((-i) as nat)
    } else {
        decimal(i as nat)
    }
}

/// The name of a MIDI note: its pitch class and its octave, where note 60
/// is "C4" (middle C) and note 0 is "C-1".
pub open spec fn spec_note_name(note: u8) -> Seq<char> {
    pitch_name((note % 12) as nat) + int_decimal(note / 12 - 1)
}

fn pitch_class_name(i: u8) -> (s: &'static str)
    requires
        i < 12,
    ensures
        s@ == pitch_name(i as nat),
{
    match i {
        0 => {
            proof {
                reveal_strlit("C");
            }
            assert("C"@ =~= pitch_name(0));
            "C"
        },
        1 => {
            proof {
                reveal_strlit("C#");
            }
            assert("C#"@ =~= pitch_name(1));
            "C#"
        },
        2 => {
            proof {
                reveal_strlit("D");
            }
            assert("D"@ =~= pitch_name(2));
            "D"
        },
        3 => {
            proof {
                reveal_strlit("D#");
            }
            assert("D#"@ =~= pitch_name(3));
            "D#"
        },
        4 => {
            proof {
                reveal_strlit("E");
            }
            assert("E"@ =~= pitch_name(4));
            "E"
        },
        5 => {
            proof {
                reveal_strlit("F");
            }
            assert("F"@ =~= pitch_name(5));
            "F"
        },
        6 => {
            proof {
                reveal_strlit("F#");
            }
            assert("F#"@ =~= pitch_name(6));
            "F#"
        },
        7 => {
            proof {
                reveal_strlit("G");
            }
            assert("G"@ =~= pitch_name(7));
            "G"
        },
        8 => {
            proof {
                reveal_strlit("G#");
            }
            assert("G#"@ =~= pitch_name(8));
            "G#"
        },
        9 => {
            proof {
                reveal_strlit("A");
            }
            assert("A"@ =~= pitch_name(9));
            "A"
        },
        10 => {
            proof {
                reveal_strlit("A#");
            }
            assert("A#"@ =~= pitch_name(10));
            "A#"
        },
        _ => {
            proof {
                reveal_strlit("B");
            }
            assert("B"@ =~= pitch_name(11));
            "B"
        },
    }
}

fn digit_str(d: u8) -> (s: &'static str)
    requires
        d < 10,
    ensures
        s@ == seq![digit_char(d as nat)],
{
    match d {
        0 => {
            proof {
                reveal_strlit("0");
            }
            assert("0"@ =~= seq![digit_char(0)]);
            "0"
        },
        1 => {
            proof {
                reveal_strlit("1");
            }
            assert("1"@ =~= seq![digit_char(1)]);
            "1"
        },
        2 => {
            proof {
                reveal_strlit("2");
            }
            assert("2"@ =~= seq![digit_char(2)]);
            "2"
        },
        3 => {
            proof {
                reveal_strlit("3");
            }
            assert("3"@ =~= seq![digit_char(3)]);
            "3"
        },
        4 => {
            proof {
                reveal_strlit("4");
            }
            assert("4"@ =~= seq![digit_char(4)]);
            "4"
        },
        5 => {
            proof {
                reveal_strlit("5");
            }
            assert("5"@ =~= seq![digit_char(5)]);
            "5"
        },
        6 => {
            proof {
                reveal_strlit("6");
            }
            assert("6"@ =~= seq![digit_char(6)]);
            "6"
        },
        7 => {
            proof {
                reveal_strlit("7");
            }
            assert("7"@ =~= seq![digit_char(7)]);
            "7"
        },
        8 => {
            proof {
                reveal_strlit("8");
            }
            assert("8"@ =~= seq![digit_char(8)]);
            "8"
        },
        _ => {
            proof {
                reveal_strlit("9");
            }
            assert("9"@ =~= seq![digit_char(9)]);
            "9"
        },
    }
}

/// Get note name from MIDI note number (e.g., 60 -> "C4")
pub fn note_name(note: u8) -> (s: String)
    ensures
        s@ == spec_note_name(note),
{
    let mut s = String::from_str(pitch_class_name(note % 12));
    let octave_plus_one = note / 12;
    if octave_plus_one == 0 {
        proof {
            reveal_strlit("-1");
            reveal_with_fuel(decimal, 2);
        }
        assert("-1"@ =~= int_decimal(-1));
        s.append("-1");
    } else {
        let octave = octave_plus_one - 1;
        if octave >= 10 {
            let tens = digit_str(octave / 10);
            let ones = digit_str(octave % 10);
            s.append(tens);
            s.append(ones);
            proof {
                reveal_with_fuel(decimal, 2);
            }
            assert(seq![digit_char((octave / 10) as nat)] + seq![digit_char((octave % 10) as nat)]
                =~= int_decimal(octave as int));
        } else {
            s.append(digit_str(octave));
        }
    }
    s
}


proof fn lemma_digit_char(a: nat, b: nat)
    requires
        a < 10,
        b < 10,
    ensures
        digit_char(a) != '#',
        digit_char(a) != '-',
        digit_char(a) == digit_char(b) ==> a == b,
{
    assert(digit_char(a) as int == a + 48);
    assert(digit_char(b) as int == b + 48);
}

proof fn lemma_decimal_shape(n: nat)
    ensures
        decimal(n).len() >= 1,
        n >= 10 ==> decimal(n).len() >= 2,
        decimal(n)[0] != '#',
        decimal(n)[0] != '-',
    decreases n,
{
    if n >= 10 {
        lemma_decimal_shape(n / 10);
    } else {
        lemma_digit_char(n, n);
    }
}

proof fn lemma_decimal_injective(a: nat, b: nat)
    requires
        decimal(a) == decimal(b),
    ensures
        a == b,
    decreases a,
{
    lemma_decimal_shape(a);
    lemma_decimal_shape(b);
    if a < 10 && b < 10 {
        lemma_digit_char(a, b);
    } else if a >= 10 && b >= 10 {
        assert(decimal(a).last() == digit_char(a % 10));
        assert(decimal(b).last() == digit_char(b % 10));
        lemma_digit_char(a % 10, b % 10);
        assert(decimal(a).drop_last() == decimal(a / 10));
        assert(decimal(b).drop_last() == decimal(b / 10));
        lemma_decimal_injective(a / 10, b / 10);
    }
}

proof fn lemma_int_decimal_injective(a: int, b: int)
    requires
        a >= -1,
        b >= -1,
        int_decimal(a) == int_decimal(b),
    ensures
        a == b,
{
    if a >= 0 {
        lemma_decimal_shape(a as nat);
    }
    if b >= 0 {
        lemma_decimal_shape(b as nat);
    }
    if a < 0 && b < 0 {
    } else if a >= 0 && b >= 0 {
        lemma_decimal_injective(a as nat, b as nat);
    } else if a < 0 {
        assert(int_decimal(a)[0] == '-');
    } else {
        assert(int_decimal(b)[0] == '-');
    }
}

/// Distinct notes have distinct names.
pub proof fn lemma_note_name_injective(a: u8, b: u8)
    requires
        a != b,
    ensures
        spec_note_name(a) != spec_note_name(b),
{
    let pa = pitch_name((a % 12) as nat);
    let pb = pitch_name((b % 12) as nat);
    let da = int_decimal(a / 12 - 1);
    let db = int_decimal(b / 12 - 1);
    if spec_note_name(a) == spec_note_name(b) {
        let s = spec_note_name(a);
        if a / 12 - 1 >= 0 {
            lemma_decimal_shape((a / 12 - 1) as nat);
        }
        if b / 12 - 1 >= 0 {
            lemma_decimal_shape((b / 12 - 1) as nat);
        }
        assert(da.len() >= 1 && da[0] != '#');
        assert(db.len() >= 1 && db[0] != '#');
        assert(s == pa + da);
        assert(s == pb + db);
        assert(s[0] == pa[0] && s[0] == pb[0]);
        assert(s[1] == '#' <==> pa.len() == 2);
        assert(s[1] == '#' <==> pb.len() == 2);
        assert(a % 12 == b % 12);
        assert(da =~= s.skip(pa.len() as int));
        assert(db =~= s.skip(pb.len() as int));
        lemma_int_decimal_injective(a / 12 - 1, b / 12 - 1);
        assert(a == (a / 12) * 12 + a % 12);
        assert(b == (b / 12) * 12 + b % 12);
    }
}

/// The shortest variable-length encoding of `v` (below 2^28): groups of
/// seven bits, most significant first, the high bit set on all bytes but
/// the last.
#[verifier::opaque]
pub open spec fn vlq_encode(v: nat) -> Seq<u8> {
    if v < 128 {
        seq![v as u8]
    } else if v < 16384 {
        seq![(v / 128 + 128) as u8, (v % 128) as u8]
    } else if v < 2097152 {
        seq![(v / 16384 + 128) as u8, ((v / 128) % 128 + 128) as u8, (v % 128) as u8]
    } else {
        seq![
            (v / 2097152 + 128) as u8,
            ((v / 16384) % 128 + 128) as u8,
            ((v / 128) % 128 + 128) as u8,
            (v % 128) as u8,
        ]
    }
}

/// Every value below 2^28, encoded as a variable-length quantity and
/// followed by any bytes, reads back as that value, consuming exactly its
/// encoding.
pub proof fn lemma_vlq_roundtrip(v: nat, rest: Seq<u8>)
    requires
        v < 268435456,
    ensures
        read_vlq(vlq_encode(v) + rest) == Ok::<(nat, nat), MidiFault>((v, vlq_encode(v).len())),
{
    reveal(vlq_encode);
    let e = vlq_encode(v);
    let s = e + rest;
    assert(v == (v / 128) * 128 + v % 128) by (nonlinear_arith);
    assert(v / 128 == (v / 16384) * 128 + (v / 128) % 128) by (nonlinear_arith);
    assert(v / 16384 == (v / 2097152) * 128 + (v / 16384) % 128) by (nonlinear_arith);
    assert(v < 16384 ==> v / 128 < 128) by (nonlinear_arith);
    assert(v < 2097152 ==> v / 16384 < 128) by (nonlinear_arith);
    assert(v < 268435456 ==> v / 2097152 < 128) by (nonlinear_arith);
    assert(v / 16384 == (v / 128) / 128) by (nonlinear_arith);
    assert(v / 2097152 == (v / 16384) / 128) by (nonlinear_arith);
    reveal_with_fuel(vlq_scan, 4);
    reveal_with_fuel(vlq_value, 5);
    if v < 128 {
        assert(s[0] == v);
    } else if v < 16384 {
        assert(s[0] == v / 128 + 128);
        assert(s[1] == v % 128);
        assert((v / 128 + 128) % 128 == v / 128);
    } else if v < 2097152 {
        assert(s[0] == v / 16384 + 128);
        assert(s[1] == (v / 128) % 128 + 128);
        assert(s[2] == v % 128);
        assert((v / 16384 + 128) % 128 == v / 16384);
        assert(((v / 128) % 128 + 128) % 128 == (v / 128) % 128);
    } else {
        assert(s[0] == v / 2097152 + 128);
        assert(s[1] == (v / 16384) % 128 + 128);
        assert(s[2] == (v / 128) % 128 + 128);
        assert(s[3] == v % 128);
        assert((v / 2097152 + 128) % 128 == v / 2097152);
        assert(((v / 16384) % 128 + 128) % 128 == (v / 16384) % 128);
        assert(((v / 128) % 128 + 128) % 128 == (v / 128) % 128);
    }
}


} // verus!
