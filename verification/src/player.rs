//! Grouping note events into chords for playback.
//!
//! Chord times and durations are in microseconds, like event times.
//! Chords whose start times are less than a millisecond apart are played
//! together.
use std::collections::HashMap;
use vstd::prelude::*;
use crate::keyboard::KeyboardError;
use crate::mapper::Mapper;
use crate::midi::{MidiEvent, event_time};
use crate::order::{sort_by_key, sorted_by_key, lemma_insert_at, lemma_sort_by_key};

verus! {

broadcast use vstd::std_specs::hash::group_hash_axioms;

#[derive(Debug)]
pub enum PlayerError {
    KeyboardError(KeyboardError),
}

/// A chord represents multiple notes played simultaneously.
#[derive(Debug, Clone)]
pub struct Chord {
    /// Time in microseconds from the start
    pub time: u128,
    /// Duration in microseconds
    pub duration: i128,
    /// Keys to press
    pub keys: Vec<String>,
}

/// What a chord holds, with its keys as text.
pub struct ChordView {
    pub time: u128,
    pub duration: i128,
    pub keys: Seq<Seq<char>>,
}

impl View for Chord {
    type V = ChordView;

    open spec fn view(&self) -> ChordView {
        ChordView { time: self.time, duration: self.duration, keys: self.keys@.map_values(|k: String| k@) }
    }
}

/// The views of a sequence of chords.
pub open spec fn chord_views(s: Seq<Chord>) -> Seq<ChordView> {
    s.map_values(|c: Chord| c@)
}

/// The key by which chords are ordered: their start time.
pub open spec fn chord_time() -> spec_fn(ChordView) -> int {
    |c: ChordView| c.time as int
}

impl Chord {
    /// Create a new chord.
    pub fn new(time: u128, keys: Vec<String>, duration: i128) -> (c: Self)
        ensures
            c.time == time,
            c.keys == keys,
            c.duration == duration,
    {
        Chord { time, keys, duration }
    }
}

/// Two start times are less than a millisecond apart.
pub open spec fn close_in_time(a: u128, b: u128) -> bool {
    let d = if a >= b {
        a - b
    } else {
        b - a
    };
    d < 1000
}

fn within_tolerance(a: u128, b: u128) -> (r: bool)
    ensures
        r == close_in_time(a, b),
{
    let d = if a >= b {
        a - b
    } else {
        b - a
    };
    d < 1000
}

/// The state of merging after some chords: the start time, keys and
/// duration of the group being gathered, and the chords completed before it.
pub struct MergeState {
    pub time: u128,
    pub keys: Seq<Seq<char>>,
    pub duration: i128,
    pub merged: Seq<ChordView>,
}

/// The group being gathered, as a chord.
pub open spec fn group_chord(st: MergeState) -> ChordView {
    ChordView { time: st.time, duration: st.duration, keys: st.keys }
}

/// Merging after the first `n` chords. A chord close in time to the start
/// of the current group adds its first key to the group, whose duration is
/// the longest seen (the first group starts from duration 0); any other
/// chord closes the group, which is kept if it has keys, and starts a new
/// one with its own keys and duration.
pub open spec fn merge_steps(chords: Seq<ChordView>, n: nat) -> MergeState
    decreases n,
{
    if n == 0 {
        MergeState { time: chords[0].time, keys: seq![], duration: 0, merged: seq![] }
    } else {
        let st = merge_steps(chords, (n - 1) as nat);
        let c = chords[n - 1];
        if close_in_time(c.time, st.time) {
            MergeState {
                time: st.time,
                keys: st.keys.push(c.keys[0]),
                duration: if c.duration > st.duration {
                    c.duration
                } else {
                    st.duration
                },
                merged: st.merged,
            }
        } else {
            MergeState {
                time: c.time,
                keys: c.keys,
                duration: c.duration,
                merged: if st.keys.len() > 0 {
                    st.merged.push(group_chord(st))
                } else {
                    st.merged
                },
            }
        }
    }
}

/// Chords merged: those close in time to the start of a group become one
/// chord with all their keys.
pub open spec fn merge_spec(chords: Seq<ChordView>) -> Seq<ChordView> {
    if chords.len() == 0 {
        seq![]
    } else {
        let st = merge_steps(chords, chords.len());
        if st.keys.len() > 0 {
            st.merged.push(group_chord(st))
        } else {
            st.merged
        }
    }
}

/// Every chord that joins a group has a key to give it.
pub open spec fn merge_safe(chords: Seq<ChordView>) -> bool {
    forall|i: int|
        0 <= i < chords.len() && close_in_time(
            chords[i].time,
            #[trigger] merge_steps(chords, i as nat).time,
        ) ==> chords[i].keys.len() > 0
}

/// Chords that each have at least one key can always be merged.
pub proof fn lemma_merge_safe(chords: Seq<ChordView>)
    requires
        forall|i: int| 0 <= i < chords.len() ==> (#[trigger] chords[i]).keys.len() > 0,
    ensures
        merge_safe(chords),
{
}

/// Merge chords at the same timestamp into multi-key chords.
pub fn merge_chords(chords: Vec<Chord>) -> (r: Vec<Chord>)
    requires
        merge_safe(chord_views(chords@)),
    ensures
        chord_views(r@) == merge_spec(chord_views(chords@)),
{
    let ghost cv = chord_views(chords@);
    if chords.len() == 0 {
        assert(chord_views(chords@) =~= seq![]);
        return chords;
    }
    let mut merged: Vec<Chord> = Vec::new();
    let mut current_time = chords[0].time;
    let mut current_keys: Vec<String> = Vec::new();
    let mut current_duration: i128 = 0;
    let ghost n = chords@.len();
    proof {
        assert(chord_views(merged@) =~= merge_steps(cv, 0).merged);
        assert(current_keys@.map_values(|k: String| k@) =~= merge_steps(cv, 0).keys);
    }
    for chord in it: chords
        invariant
            n == cv.len(),
            n > 0,
            cv == chord_views(it.seq()),
            merge_safe(cv),
            current_time == merge_steps(cv, it.index() as nat).time,
            current_duration == merge_steps(cv, it.index() as nat).duration,
            current_keys@.map_values(|k: String| k@) == merge_steps(cv, it.index() as nat).keys,
            chord_views(merged@) == merge_steps(cv, it.index() as nat).merged,
    {
        let ghost i = it.index();
        let ghost st = merge_steps(cv, i as nat);
        assert(chord == it.seq()[i as int]);
        assert(cv[i as int] == chord@);
        if within_tolerance(chord.time, current_time) {
            let k = chord.keys[0].clone();
            current_keys.push(k);
            assert(current_keys@.map_values(|k: String| k@) =~= st.keys.push(cv[i as int].keys[0]));
            if chord.duration > current_duration {
                current_duration = chord.duration;
            }
        } else {
            if current_keys.len() > 0 {
                merged.push(Chord::new(current_time, current_keys, current_duration));
                assert(chord_views(merged@) =~= st.merged.push(group_chord(st)));
            }
            current_time = chord.time;
            current_keys = chord.keys;
            current_duration = chord.duration;
        }
    }
    if current_keys.len() > 0 {
        let ghost st = merge_steps(cv, n);
        merged.push(Chord::new(current_time, current_keys, current_duration));
        assert(chord_views(merged@) =~= st.merged.push(group_chord(st)));
    }
    merged
}


/// Stable insertion sort of chords by start time.
fn sort_chords(chords: Vec<Chord>) -> (r: Vec<Chord>)
    ensures
        chord_views(r@) == sort_by_key(chord_views(chords@), chord_time()),
{
    let ghost cv = chord_views(chords@);
    let mut out: Vec<Chord> = Vec::new();
    proof {
        assert(cv.take(0) =~= seq![]);
        assert(chord_views(out@) =~= seq![]);
    }
    for chord in it: chords
        invariant
            cv == chord_views(it.seq()),
            chord_views(out@) == sort_by_key(cv.take(it.index() as int), chord_time()),
    {
        let ghost i = it.index();
        let ghost ov = chord_views(out@);
        assert(cv[i as int] == chord@);
        let mut p: usize = out.len();
        while p > 0 && out[p - 1].time > chord.time
            invariant
                p <= out@.len(),
                forall|j: int| p <= j < out@.len() ==> out@[j].time > chord.time,
            decreases p,
        {
            p -= 1;
        }
        proof {
            lemma_insert_at(ov, chord@, chord_time(), p as int);
            assert(cv.take(i + 1).drop_last() =~= cv.take(i as int));
        }
        out.insert(p, chord);
        assert(chord_views(out@) =~= ov.take(p as int).push(cv[i as int]) + ov.skip(p as int));
    }
    assert(cv.take(cv.len() as int) =~= cv);
    out
}

/// The notes sounding and the single-key chords completed after a sequence
/// of events. A note-on starts (or restarts) a note at its time; a note-off
/// of a sounding note ends it and, when the note is mapped, completes a
/// chord of its key from the note's start to the note-off. Other note-offs
/// do nothing.
pub open spec fn note_chords(events: Seq<MidiEvent>, keys: Map<u8, Seq<char>>) -> (
    Map<u8, u128>,
    Seq<ChordView>,
)
    decreases events.len(),
{
    if events.len() == 0 {
        (Map::empty(), seq![])
    } else {
        let (active, cs) = note_chords(events.drop_last(), keys);
        let e = events.last();
        if e.is_note_on {
            (active.insert(e.note, e.time), cs)
        } else if active.contains_key(e.note) {
            let start = active[e.note];
            let cs2 = if keys.contains_key(e.note) {
                cs.push(
                    ChordView {
                        time: start,
                        duration: (e.time - start) as i128,
                        keys: seq![keys[e.note]],
                    },
                )
            } else {
                cs
            };
            (active.remove(e.note), cs2)
        } else {
            (active, cs)
        }
    }
}

/// The chords of a sequence of events: the completed notes, stably sorted
/// by start time and merged.
pub open spec fn chords_spec(events: Seq<MidiEvent>, keys: Map<u8, Seq<char>>) -> Seq<ChordView> {
    merge_spec(sort_by_key(note_chords(events, keys).1, chord_time()))
}

/// Times up to this bound keep the difference of two times in an `i128`.
pub open spec fn times_fit(events: Seq<MidiEvent>) -> bool {
    forall|i: int| 0 <= i < events.len() ==> (#[trigger] events[i]).time <= i128::MAX
}

/// Convert MIDI events to chords for playback.
pub fn events_to_chords(events: &[MidiEvent], mapper: &Mapper) -> (r: Vec<Chord>)
    requires
        times_fit(events@),
    ensures
        chord_views(r@) == chords_spec(events@, mapper@),
{
    let mut chords: Vec<Chord> = Vec::new();
    // Track note-on events: note -> start time
    let mut active_notes: HashMap<u8, u128> = HashMap::new();
    proof {
        assert(events@.take(0) =~= seq![]);
        assert(chord_views(chords@) =~= seq![]);
    }
    let mut i: usize = 0;
    while i < events.len()
        invariant
            i <= events@.len(),
            times_fit(events@),
            active_notes@ == note_chords(events@.take(i as int), mapper@).0,
            chord_views(chords@) == note_chords(events@.take(i as int), mapper@).1,
            forall|k: u8| active_notes@.contains_key(k) ==> active_notes@[k] <= i128::MAX,
            forall|j: int| 0 <= j < chords@.len() ==> (#[trigger] chords@[j]).keys@.len() == 1,
        decreases events.len() - i,
    {
        let event = events[i];
        assert(events@.take(i + 1).drop_last() =~= events@.take(i as int));
        assert(events@.take(i + 1).last() == event);
        if event.is_note_on {
            active_notes.insert(event.note, event.time);
        } else {
            match active_notes.remove(&event.note) {
                Some(start_time) => {
                    match mapper.note_to_key(event.note) {
                        Some(key) => {
                            let duration = event.time as i128 - start_time as i128;
                            let ghost old_chords = chords@;
                            chords.push(Chord::new(start_time, vec![String::from_str(key)], duration));
                            assert(chord_views(chords@) =~= chord_views(old_chords).push(
                                chords@.last()@,
                            ));
                            assert(chords@.last()@.keys =~= seq![mapper@[event.note]]);
                        },
                        None => {},
                    }
                },
                None => {},
            }
        }
        i += 1;
    }
    assert(events@.take(events@.len() as int) =~= events@);
    let ghost raw = chord_views(chords@);
    let sorted = sort_chords(chords);
    proof {
        broadcast use vstd::seq_lib::group_to_multiset_ensures;

        lemma_sort_by_key(raw, chord_time());
        let sv = chord_views(sorted@);
        assert forall|j: int| 0 <= j < sv.len() implies (#[trigger] sv[j]).keys.len() > 0 by {
            assert(sv.to_multiset().count(sv[j]) > 0);
            assert(raw.contains(sv[j]));
            let k = choose|k: int| 0 <= k < raw.len() && raw[k] == sv[j];
            assert(raw[k].keys.len() == 1);
        }
        lemma_merge_safe(sv);
    }
    merge_chords(sorted)
}


/// The texts `parts` joined, with `sep` between each two.
pub open spec fn joined(parts: Seq<Seq<char>>, sep: Seq<char>) -> Seq<char>
    decreases parts.len(),
{
    if parts.len() == 0 {
        seq![]
    } else if parts.len() == 1 {
        parts[0]
    } else {
        joined(parts.drop_last(), sep) + sep + parts.last()
    }
}

/// Joining puts the separator between each two texts and nowhere else: a
/// single text joins to itself, and one more text adds the separator and
/// that text at the end.
pub proof fn lemma_joined(parts: Seq<Seq<char>>, p: Seq<char>, sep: Seq<char>)
    ensures
        joined(seq![p], sep) == p,
        parts.len() > 0 ==> joined(parts.push(p), sep) == joined(parts, sep) + sep + p,
        parts.len() == 0 ==> joined(parts.push(p), sep) == p,
{
    assert(parts.push(p).drop_last() =~= parts);
    assert(seq![p].drop_last() =~= Seq::<Seq<char>>::empty());
}

/// Joins key texts with a separator, as printed for a chord.
pub fn join_keys(keys: &Vec<String>, sep: &str) -> (s: String)
    ensures
        s@ == joined(keys@.map_values(|k: String| k@), sep@),
{
    let ghost parts = keys@.map_values(|k: String| k@);
    let mut s = String::new();
    let mut i: usize = 0;
    proof {
        assert(parts.take(0) =~= seq![]);
    }
    while i < keys.len()
        invariant
            i <= keys@.len(),
            parts == keys@.map_values(|k: String| k@),
            s@ == joined(parts.take(i as int), sep@),
        decreases keys.len() - i,
    {
        assert(parts.take(i + 1).drop_last() =~= parts.take(i as int));
        if i > 0 {
            s.append(sep);
        } else {
            assert(s@ + parts[0] =~= parts[0]);
        }
        s.append(keys[i].as_str());
        i += 1;
    }
    assert(parts.take(keys@.len() as int) =~= parts);
    s
}

/// The number of note-on events.
pub open spec fn count_note_ons(events: Seq<MidiEvent>) -> nat
    decreases events.len(),
{
    if events.len() == 0 {
        0
    } else {
        count_note_ons(events.drop_last()) + if events.last().is_note_on {
            1nat
        } else {
            0nat
        }
    }
}

/// The number of chords with more than one key.
pub open spec fn count_multi_key(chords: Seq<ChordView>) -> nat
    decreases chords.len(),
{
    if chords.len() == 0 {
        0
    } else {
        count_multi_key(chords.drop_last()) + if chords.last().keys.len() > 1 {
            1nat
        } else {
            0nat
        }
    }
}

/// A chord has two keys or more.
pub open spec fn has_several_keys() -> spec_fn(ChordView) -> bool {
    |c: ChordView| c.keys.len() >= 2
}

/// The chords counted as multi-key are exactly those with two keys or
/// more: a chord of two or more keys adds one to the count, a chord of at
/// most one key adds nothing.
pub proof fn lemma_multi_key_count(chords: Seq<ChordView>, c: ChordView)
    ensures
        count_multi_key(chords) == chords.filter(has_several_keys()).len(),
        c.keys.len() >= 2 ==> count_multi_key(chords.push(c)) == count_multi_key(chords) + 1,
        c.keys.len() <= 1 ==> count_multi_key(chords.push(c)) == count_multi_key(chords),
    decreases chords.len(),
{
    assert(chords.push(c).drop_last() =~= chords);
    if chords.len() > 0 {
        lemma_multi_key_count(chords.drop_last(), chords.last());
        chords.drop_last().lemma_filter_push(chords.last(), has_several_keys());
        assert(chords.drop_last().push(chords.last()) =~= chords);
    } else {
        reveal(Seq::filter);
    }
}

/// An event is a note-on.
pub open spec fn is_note_on_event() -> spec_fn(MidiEvent) -> bool {
    |e: MidiEvent| e.is_note_on
}

/// The notes counted are exactly the note-on events.
pub proof fn lemma_note_on_count(events: Seq<MidiEvent>)
    ensures
        count_note_ons(events) == events.filter(is_note_on_event()).len(),
    decreases events.len(),
{
    if events.len() > 0 {
        lemma_note_on_count(events.drop_last());
        events.drop_last().lemma_filter_push(events.last(), is_note_on_event());
        assert(events.drop_last().push(events.last()) =~= events);
    } else {
        reveal(Seq::filter);
    }
}

/// Some note-on event plays note `n`.
pub open spec fn plays_note(events: Seq<MidiEvent>, n: u8) -> bool {
    exists|k: int| 0 <= k < events.len() && (#[trigger] events[k]).is_note_on && events[k].note == n
}

/// Statistics about a song: what a dry run reports.
#[derive(Debug)]
pub struct SongSummary {
    /// Number of note-on events
    pub total_notes: usize,
    /// The notes played, in increasing order
    pub unique_notes: Vec<u8>,
    /// Number of chords
    pub chord_count: usize,
    /// Number of chords with more than one key
    pub multi_key_chords: usize,
    /// End of the last chord in microseconds (its start plus its
    /// duration), 0 without chords
    pub total_duration: i128,
}

/// Counts notes, distinct notes and chords of a song.
pub fn summarize(events: &[MidiEvent], chords: &[Chord]) -> (r: SongSummary)
    requires
        chords@.len() > 0 ==> chords@.last().time <= i128::MAX && chords@.last().time
            + chords@.last().duration <= i128::MAX,
    ensures
        r.total_notes == count_note_ons(events@),
        forall|i: int, j: int|
            0 <= i < j < r.unique_notes@.len() ==> r.unique_notes@[i] < r.unique_notes@[j],
        forall|n: u8| r.unique_notes@.contains(n) <==> plays_note(events@, n),
        r.chord_count == chords@.len(),
        r.multi_key_chords == count_multi_key(chord_views(chords@)),
        r.total_duration == if chords@.len() == 0 {
            0
        } else {
            chords@.last().time + chords@.last().duration
        },
{
    let mut total_notes: usize = 0;
    let mut seen: Vec<bool> = vec![false; 256];
    let mut i: usize = 0;
    while i < events.len()
        invariant
            i <= events@.len(),
            total_notes == count_note_ons(events@.take(i as int)),
            total_notes <= i,
            seen@.len() == 256,
            forall|n: int|
                0 <= n < 256 ==> (seen@[n] <==> plays_note(events@.take(i as int), n as u8)),
        decreases events.len() - i,
    {
        let event = events[i];
        let ghost pre = events@.take(i as int);
        let ghost post = events@.take(i + 1);
        assert(post.drop_last() =~= pre);
        assert(post.last() == event);
        if event.is_note_on {
            total_notes += 1;
            seen.set(event.note as usize, true);
        }
        assert forall|n: int| 0 <= n < 256 implies (seen@[n] <==> plays_note(post, n as u8)) by {
            if plays_note(post, n as u8) {
                let k = choose|k: int|
                    0 <= k < post.len() && (#[trigger] post[k]).is_note_on && post[k].note
                        == n as u8;
                if k < i {
                    assert(pre[k] == post[k]);
                }
            }
            if plays_note(pre, n as u8) {
                let k = choose|k: int|
                    0 <= k < pre.len() && (#[trigger] pre[k]).is_note_on && pre[k].note == n as u8;
                assert(post[k] == pre[k]);
            }
            if event.is_note_on && event.note == n as u8 {
                assert(post[i as int] == event);
            }
        }
        i += 1;
    }
    assert(events@.take(events@.len() as int) =~= events@);
    let mut unique_notes: Vec<u8> = Vec::new();
    let mut n: usize = 0;
    while n < 256
        invariant
            n <= 256,
            seen@.len() == 256,
            forall|a: int, b: int|
                0 <= a < b < unique_notes@.len() ==> unique_notes@[a] < unique_notes@[b],
            forall|a: int| 0 <= a < unique_notes@.len() ==> unique_notes@[a] < n,
            forall|m: u8| unique_notes@.contains(m) <==> (m < n && seen@[m as int]),
        decreases 256 - n,
    {
        if seen[n] {
            let ghost old_u = unique_notes@;
            unique_notes.push(n as u8);
            assert forall|m: u8| unique_notes@.contains(m) <==> (m < n + 1 && seen@[m as int]) by {
                if unique_notes@.contains(m) && m != n as u8 {
                    let a = choose|a: int| 0 <= a < unique_notes@.len() && unique_notes@[a] == m;
                    assert(old_u[a] == m);
                }
                if m < n {
                    if old_u.contains(m) {
                        let a = choose|a: int| 0 <= a < old_u.len() && old_u[a] == m;
                        assert(unique_notes@[a] == m);
                    }
                }
                if m == n as u8 {
                    assert(unique_notes@[old_u.len() as int] == m);
                }
            }
        } else {
            assert forall|m: u8| unique_notes@.contains(m) <==> (m < n + 1 && seen@[m as int]) by {
            }
        }
        n += 1;
    }
    let mut multi_key_chords: usize = 0;
    let mut j: usize = 0;
    while j < chords.len()
        invariant
            j <= chords@.len(),
            multi_key_chords <= j,
            multi_key_chords == count_multi_key(chord_views(chords@.take(j as int))),
        decreases chords.len() - j,
    {
        assert(chord_views(chords@.take(j + 1)).drop_last() =~= chord_views(chords@.take(j as int)));
        if chords[j].keys.len() > 1 {
            multi_key_chords += 1;
        }
        j += 1;
    }
    assert(chords@.take(chords@.len() as int) =~= chords@);
    let total_duration: i128 = if chords.len() == 0 {
        0
    } else {
        let last = &chords[chords.len() - 1];
        (last.time as i128) + last.duration
    };
    SongSummary {
        total_notes,
        unique_notes,
        chord_count: chords.len(),
        multi_key_chords,
        total_duration,
    }
}


/// The keys of chords, one chord after another.
pub open spec fn all_keys(chords: Seq<ChordView>) -> Seq<Seq<char>>
    decreases chords.len(),
{
    if chords.len() == 0 {
        seq![]
    } else {
        all_keys(chords.drop_last()) + chords.last().keys
    }
}

/// The first key of each chord.
pub open spec fn first_keys(chords: Seq<ChordView>) -> Seq<Seq<char>> {
    chords.map_values(|c: ChordView| c.keys[0])
}

/// Each chord has exactly one key.
pub open spec fn single_keys(chords: Seq<ChordView>) -> bool {
    forall|i: int| 0 <= i < chords.len() ==> (#[trigger] chords[i]).keys.len() == 1
}

proof fn lemma_all_keys_push(cs: Seq<ChordView>, c: ChordView)
    ensures
        all_keys(cs.push(c)) == all_keys(cs) + c.keys,
{
    assert(cs.push(c).drop_last() =~= cs);
}

proof fn lemma_merge_steps_keys(chords: Seq<ChordView>, n: nat)
    requires
        0 < chords.len(),
        n <= chords.len(),
        single_keys(chords),
    ensures
        all_keys(merge_steps(chords, n).merged) + merge_steps(chords, n).keys
            == first_keys(chords.take(n as int)),
    decreases n,
{
    if n == 0 {
        assert(all_keys(Seq::<ChordView>::empty()) + Seq::<Seq<char>>::empty() =~= first_keys(
            chords.take(0),
        ));
    } else {
        lemma_merge_steps_keys(chords, (n - 1) as nat);
        let st = merge_steps(chords, (n - 1) as nat);
        let c = chords[n - 1];
        assert(first_keys(chords.take(n as int)) =~= first_keys(chords.take(n - 1)).push(c.keys[0]));
        assert(c.keys =~= seq![c.keys[0]]);
        if !close_in_time(c.time, st.time) && st.keys.len() > 0 {
            lemma_all_keys_push(st.merged, group_chord(st));
        }
        assert(all_keys(merge_steps(chords, n).merged) + merge_steps(chords, n).keys
            =~= first_keys(chords.take(n as int)));
    }
}

/// Merging single-key chords loses, doubles and reorders no key: the keys
/// of the merged chords, read in order, are the keys of the input chords.
pub proof fn lemma_merge_keeps_keys(chords: Seq<ChordView>)
    requires
        single_keys(chords),
    ensures
        all_keys(merge_spec(chords)) == first_keys(chords),
{
    if chords.len() == 0 {
        assert(first_keys(chords) =~= seq![]);
    } else {
        let n = chords.len();
        lemma_merge_steps_keys(chords, n);
        assert(chords.take(n as int) =~= chords);
        let st = merge_steps(chords, n);
        if st.keys.len() > 0 {
            lemma_all_keys_push(st.merged, group_chord(st));
        } else {
            assert(all_keys(st.merged) + st.keys =~= all_keys(st.merged));
        }
    }
}

/// The longest duration of chords `a` to `b - 1`, and `init` if longer.
pub open spec fn run_duration(chords: Seq<ChordView>, a: int, b: int, init: i128) -> i128
    decreases b - a,
{
    if b <= a {
        init
    } else {
        let m = run_duration(chords, a, b - 1, init);
        if chords[b - 1].duration > m {
            chords[b - 1].duration
        } else {
            m
        }
    }
}

/// The chord that chords `a` to `b - 1` merge into: it starts with chord
/// `a`, holds their keys in order and lasts as long as the longest of them
/// (and, for the first run, at least 0).
pub open spec fn run_chord(chords: Seq<ChordView>, a: int, b: int) -> ChordView {
    ChordView {
        time: chords[a].time,
        duration: run_duration(
            chords,
            a,
            b,
            if a == 0 {
                0
            } else {
                chords[a].duration
            },
        ),
        keys: first_keys(chords.subrange(a, b)),
    }
}

/// Chords `a` to `b - 1` are a maximal run: each is close in time to chord
/// `a`, and chord `b`, if there is one, is not.
pub open spec fn run_closed(chords: Seq<ChordView>, a: int, b: int) -> bool {
    &&& forall|j: int| a <= j < b ==> close_in_time(#[trigger] chords[j].time, chords[a].time)
    &&& b < chords.len() ==> !close_in_time(chords[b].time, chords[a].time)
}

/// Where the runs of the first `n` chords start: the starts of the
/// completed runs, and the start of the run being gathered.
pub open spec fn group_starts(chords: Seq<ChordView>, n: nat) -> (Seq<int>, int)
    decreases n,
{
    if n == 0 {
        (seq![], 0)
    } else {
        let (gs, cur) = group_starts(chords, (n - 1) as nat);
        let st = merge_steps(chords, (n - 1) as nat);
        if close_in_time(chords[n - 1].time, st.time) {
            (gs, cur)
        } else {
            (
                if st.keys.len() > 0 {
                    gs.push(cur)
                } else {
                    gs
                },
                n - 1,
            )
        }
    }
}

/// The starts of all runs of the chords.
pub open spec fn run_starts(chords: Seq<ChordView>) -> Seq<int> {
    let (gs, cur) = group_starts(chords, chords.len());
    gs.push(cur)
}

/// Where run `i` ends: at the start of the next run, or at `end`.
pub open spec fn run_end(starts: Seq<int>, end: int, i: int) -> int {
    if i + 1 < starts.len() {
        starts[i + 1]
    } else {
        end
    }
}

/// Starts of runs: from 0 on, strictly increasing, below `end`.
pub open spec fn starts_ok(starts: Seq<int>, end: int) -> bool {
    &&& starts.len() > 0 ==> starts[0] == 0
    &&& forall|i: int, j: int| 0 <= i < j < starts.len() ==> starts[i] < starts[j]
    &&& forall|i: int| 0 <= i < starts.len() ==> 0 <= #[trigger] starts[i] < end
}

proof fn lemma_merge_runs_steps(chords: Seq<ChordView>, n: nat)
    requires
        single_keys(chords),
        1 <= n <= chords.len(),
    ensures
        ({
            let st = merge_steps(chords, n);
            let (gs, cur) = group_starts(chords, n);
            &&& st.merged.len() == gs.len()
            &&& starts_ok(gs.push(cur), n as int)
            &&& st.time == chords[cur].time
            &&& st.keys.len() > 0
            &&& forall|j: int| cur <= j < n ==> close_in_time(#[trigger] chords[j].time, chords[cur].time)
            &&& group_chord(st) == run_chord(chords, cur, n as int)
            &&& forall|i: int|
                0 <= i < gs.len() ==> #[trigger] st.merged[i] == run_chord(
                    chords,
                    gs[i],
                    run_end(gs, cur, i),
                ) && run_closed(chords, gs[i], run_end(gs, cur, i))
        }),
    decreases n,
{
    let c = chords[n - 1];
    assert(c.keys.len() == 1);
    assert(c.keys =~= seq![c.keys[0]]);
    if n == 1 {
        assert(chords.subrange(0, 1) =~= seq![c]);
        assert(first_keys(seq![c]) =~= seq![c.keys[0]]);
        assert(merge_steps(chords, 0).keys.push(c.keys[0]) =~= seq![c.keys[0]]);
        assert(run_duration(chords, 0, 0, 0) == 0);
    } else {
        lemma_merge_runs_steps(chords, (n - 1) as nat);
        let st = merge_steps(chords, (n - 1) as nat);
        let (gs, cur) = group_starts(chords, (n - 1) as nat);
        let nst = merge_steps(chords, n);
        let (ngs, ncur) = group_starts(chords, n);
        let all0 = gs.push(cur);
        assert(all0[all0.len() - 1] == cur);
        assert(0 <= cur < n - 1);
        if close_in_time(c.time, st.time) {
            assert(chords.subrange(cur, n as int) =~= chords.subrange(cur, n - 1).push(c));
            assert(first_keys(chords.subrange(cur, n - 1).push(c)) =~= first_keys(
                chords.subrange(cur, n - 1),
            ).push(c.keys[0]));
            assert(forall|i: int| 0 <= i < gs.len() ==> run_end(ngs, ncur, i) == run_end(gs, cur, i));
        } else {
            assert(ngs == gs.push(cur));
            assert(ncur == n - 1);
            assert(nst.merged == st.merged.push(group_chord(st)));
            assert(chords.subrange(n - 1, n as int) =~= seq![c]);
            assert(first_keys(seq![c]) =~= seq![c.keys[0]]);
            assert(run_duration(chords, n - 1, n - 1, c.duration) == c.duration);
            assert forall|i: int| 0 <= i < ngs.len() implies #[trigger] nst.merged[i] == run_chord(
                chords,
                ngs[i],
                run_end(ngs, ncur, i),
            ) && run_closed(chords, ngs[i], run_end(ngs, ncur, i)) by {
                if i < gs.len() {
                    assert(nst.merged[i] == st.merged[i]);
                    assert(ngs[i] == gs[i]);
                    assert(run_end(ngs, ncur, i) == run_end(gs, cur, i));
                } else {
                    assert(ngs[i] == cur);
                    assert(run_end(ngs, ncur, i) == n - 1);
                }
            }
            let all = ngs.push(ncur);
            assert forall|i: int, j: int| 0 <= i < j < all.len() implies all[i] < all[j] by {
                if j < gs.len() {
                    assert(all[i] == gs.push(cur)[i] && all[j] == gs.push(cur)[j]);
                } else if j == gs.len() {
                    assert(all[j] == cur);
                    assert(all[i] == gs.push(cur)[i]);
                } else {
                    assert(all[j] == n - 1);
                    assert(all[i] == gs.push(cur)[i]);
                }
            }
            assert forall|i: int| 0 <= i < all.len() implies 0 <= #[trigger] all[i] < n by {
                if i < all.len() - 1 {
                    assert(all[i] == gs.push(cur)[i]);
                }
            }
        }
    }
}

/// Merging single-key chords cuts them into maximal runs, each starting
/// with the first chord not close in time to the start of the run before
/// it, and makes each run one chord: at the start of the run, with the keys
/// of the run in order and the longest duration of the run (the first run
/// lasting at least 0).
pub proof fn lemma_merge_runs(chords: Seq<ChordView>)
    requires
        single_keys(chords),
        chords.len() > 0,
    ensures
        ({
            let starts = run_starts(chords);
            let out = merge_spec(chords);
            &&& out.len() == starts.len()
            &&& starts_ok(starts, chords.len() as int)
            &&& forall|i: int|
                0 <= i < out.len() ==> #[trigger] out[i] == run_chord(
                    chords,
                    starts[i],
                    run_end(starts, chords.len() as int, i),
                ) && run_closed(chords, starts[i], run_end(starts, chords.len() as int, i))
        }),
{
    let n = chords.len();
    lemma_merge_runs_steps(chords, n);
    let st = merge_steps(chords, n);
    let (gs, cur) = group_starts(chords, n);
    let starts = run_starts(chords);
    let out = merge_spec(chords);
    assert(out == st.merged.push(group_chord(st)));
    assert forall|i: int| 0 <= i < out.len() implies #[trigger] out[i] == run_chord(
        chords,
        starts[i],
        run_end(starts, n as int, i),
    ) && run_closed(chords, starts[i], run_end(starts, n as int, i)) by {
        if i < gs.len() {
            assert(out[i] == st.merged[i]);
            assert(starts[i] == gs[i]);
            assert(run_end(starts, n as int, i) == run_end(gs, cur, i));
        } else {
            assert(starts[i] == cur);
            assert(out[i] == group_chord(st));
        }
    }
}

/// Consecutive chords start in order and are not close in time.
pub open spec fn spaced(chords: Seq<ChordView>) -> bool {
    forall|i: int|
        0 <= i < chords.len() - 1 ==> (#[trigger] chords[i]).time <= chords[i + 1].time
            && !close_in_time(chords[i + 1].time, chords[i].time)
}

proof fn lemma_merge_steps_spaced(chords: Seq<ChordView>, n: nat)
    requires
        0 < chords.len(),
        n <= chords.len(),
        sorted_by_key(chords, chord_time()),
    ensures
        spaced(merge_steps(chords, n).merged),
        ({
            let st = merge_steps(chords, n);
            &&& exists|k: int|
                0 <= k < chords.len() && k <= n && (k < n || k == 0) && #[trigger] chords[k].time
                    == st.time
            &&& st.merged.len() > 0 ==> st.merged.last().time <= st.time && !close_in_time(
                st.time,
                st.merged.last().time
            )
        }),
    decreases n,
{
    if n == 0 {
        assert(chords[0].time == merge_steps(chords, 0).time);
    } else {
        lemma_merge_steps_spaced(chords, (n - 1) as nat);
        let st = merge_steps(chords, (n - 1) as nat);
        let c = chords[n - 1];
        let k = choose|k: int|
            0 <= k < chords.len() && k <= n - 1 && (k < n - 1 || k == 0) && #[trigger] chords[k].time
                == st.time;
        assert(chord_time()(chords[k]) <= chord_time()(chords[n - 1]));
        let nst = merge_steps(chords, n);
        if close_in_time(c.time, st.time) {
            assert(chords[k].time == nst.time);
        } else {
            assert(chords[n - 1].time == nst.time);
            if st.keys.len() > 0 {
                assert forall|i: int| 0 <= i < nst.merged.len() - 1 implies (#[trigger] nst.merged[i]).time
                    <= nst.merged[i + 1].time && !close_in_time(
                    nst.merged[i + 1].time,
                    nst.merged[i].time
                ) by {
                    if i < st.merged.len() - 1 {
                        assert(nst.merged[i] == st.merged[i]);
                        assert(nst.merged[i + 1] == st.merged[i + 1]);
                    } else {
                        assert(nst.merged[i] == st.merged.last());
                    }
                }
            }
        }
    }
}

/// Merging chords sorted by start time gives chords in order of start time,
/// no two consecutive ones close in time.
pub proof fn lemma_merge_spaced(chords: Seq<ChordView>)
    requires
        sorted_by_key(chords, chord_time()),
    ensures
        spaced(merge_spec(chords)),
{
    if chords.len() > 0 {
        let n = chords.len();
        lemma_merge_steps_spaced(chords, n);
        let st = merge_steps(chords, n);
        let out = merge_spec(chords);
        if st.keys.len() > 0 {
            assert forall|i: int| 0 <= i < out.len() - 1 implies (#[trigger] out[i]).time
                <= out[i + 1].time && !close_in_time(out[i + 1].time, out[i].time) by {
                if i < st.merged.len() - 1 {
                    assert(out[i] == st.merged[i]);
                    assert(out[i + 1] == st.merged[i + 1]);
                } else {
                    assert(out[i] == st.merged.last());
                }
            }
        }
    }
}

/// The chords completed from events each have one key, the key of a mapped
/// note.
pub proof fn lemma_note_chords_mapped(events: Seq<MidiEvent>, keys: Map<u8, Seq<char>>)
    ensures
        single_keys(note_chords(events, keys).1),
        forall|i: int|
            0 <= i < note_chords(events, keys).1.len() ==> exists|n: u8|
                keys.contains_key(n) && keys[n] == (#[trigger] note_chords(events, keys).1[i]).keys[0],
    decreases events.len(),
{
    if events.len() > 0 {
        lemma_note_chords_mapped(events.drop_last(), keys);
        let e = events.last();
        let cs = note_chords(events, keys).1;
        let prev = note_chords(events.drop_last(), keys).1;
        assert forall|i: int| 0 <= i < cs.len() implies exists|n: u8|
            keys.contains_key(n) && keys[n] == (#[trigger] cs[i]).keys[0] by {
            if i < prev.len() {
                assert(cs[i] == prev[i]);
                let n = choose|n: u8| keys.contains_key(n) && keys[n] == (#[trigger] prev[i]).keys[0];
            } else {
                assert(cs[i].keys[0] == keys[e.note]);
            }
        }
    }
}

/// What the chords of a song are: in order of start time, no two
/// consecutive ones close in time; their keys, read in order, are the keys
/// of the completed notes in order of start time, each the key of a mapped
/// note.
pub proof fn lemma_chords_of_song(events: Seq<MidiEvent>, keys: Map<u8, Seq<char>>)
    ensures
        spaced(chords_spec(events, keys)),
        all_keys(chords_spec(events, keys)) == first_keys(
            sort_by_key(note_chords(events, keys).1, chord_time()),
        ),
        forall|i: int|
            0 <= i < all_keys(chords_spec(events, keys)).len() ==> exists|n: u8|
                keys.contains_key(n) && keys[n] == #[trigger] all_keys(
                    chords_spec(events, keys),
                )[i],
{
    broadcast use vstd::seq_lib::group_to_multiset_ensures;

    let raw = note_chords(events, keys).1;
    let sorted = sort_by_key(raw, chord_time());
    lemma_sort_by_key(raw, chord_time());
    lemma_note_chords_mapped(events, keys);
    assert forall|i: int| 0 <= i < sorted.len() implies (#[trigger] sorted[i]).keys.len() == 1
        && exists|n: u8| keys.contains_key(n) && keys[n] == sorted[i].keys[0] by {
        assert(sorted.to_multiset().count(sorted[i]) > 0);
        assert(raw.contains(sorted[i]));
        let k = choose|k: int| 0 <= k < raw.len() && raw[k] == sorted[i];
        let n = choose|n: u8| keys.contains_key(n) && keys[n] == (#[trigger] raw[k]).keys[0];
    }
    lemma_merge_spaced(sorted);
    lemma_merge_keeps_keys(sorted);
    let ak = all_keys(chords_spec(events, keys));
    assert forall|i: int| 0 <= i < ak.len() implies exists|n: u8|
        keys.contains_key(n) && keys[n] == #[trigger] ak[i] by {
        assert(ak[i] == sorted[i].keys[0]);
    }
}


/// The chords of a song start at least a millisecond apart, in order.
pub proof fn lemma_chords_apart(events: Seq<MidiEvent>, keys: Map<u8, Seq<char>>)
    ensures
        forall|i: int|
            0 <= i < chords_spec(events, keys).len() - 1 ==> (#[trigger] chords_spec(events, keys)[i]).time
                + 1000 <= chords_spec(events, keys)[i + 1].time,
{
    lemma_chords_of_song(events, keys);
}

/// No event of `events` is about note `n`.
pub open spec fn untouched(events: Seq<MidiEvent>, n: u8) -> bool {
    forall|i: int| 0 <= i < events.len() ==> (#[trigger] events[i]).note != n
}

proof fn lemma_note_kept(x: Seq<MidiEvent>, mid: Seq<MidiEvent>, n: u8, keys: Map<u8, Seq<char>>)
    requires
        untouched(mid, n),
    ensures
        note_chords(x + mid, keys).0.contains_key(n) == note_chords(x, keys).0.contains_key(n),
        note_chords(x + mid, keys).0[n] == note_chords(x, keys).0[n],
    decreases mid.len(),
{
    if mid.len() == 0 {
        assert(x + mid =~= x);
    } else {
        let m2 = mid.drop_last();
        assert(untouched(m2, n)) by {
            assert forall|i: int| 0 <= i < m2.len() implies (#[trigger] m2[i]).note != n by {
                assert(m2[i] == mid[i]);
            }
        }
        lemma_note_kept(x, m2, n, keys);
        assert((x + mid).drop_last() =~= x + m2);
        assert((x + mid).last() == mid[mid.len() - 1]);
    }
}

/// A mapped note held from a note-on at `on.time` to its note-off at
/// `off.time`, with no other event of that note between, completes a chord
/// of that note's key that starts at the note-on and lasts until the
/// note-off: its duration is the note-off time less the note-on time.
pub proof fn lemma_held_note(
    pre: Seq<MidiEvent>,
    on: MidiEvent,
    mid: Seq<MidiEvent>,
    off: MidiEvent,
    keys: Map<u8, Seq<char>>,
)
    requires
        on.is_note_on,
        !off.is_note_on,
        off.note == on.note,
        keys.contains_key(on.note),
        untouched(mid, on.note),
        on.time <= i128::MAX,
        off.time <= i128::MAX,
    ensures
        ({
            let before = note_chords(pre.push(on) + mid, keys).1;
            let after = note_chords(pre.push(on) + mid + seq![off], keys).1;
            &&& after.len() == before.len() + 1
            &&& after.drop_last() == before
            &&& after.last().time == on.time
            &&& after.last().duration == off.time - on.time
            &&& after.last().keys == seq![keys[on.note]]
        }),
{
    let x = pre.push(on);
    lemma_note_kept(x, mid, on.note, keys);
    assert(x.drop_last() =~= pre);
    assert(x.last() == on);
    let all = x + mid + seq![off];
    assert(all.drop_last() =~= x + mid);
    assert(all.last() == off);
}

proof fn lemma_run_duration_ge(chords: Seq<ChordView>, a: int, b: int, init: i128, j: int)
    requires
        a <= j < b,
    ensures
        run_duration(chords, a, b, init) >= chords[j].duration,
    decreases b - a,
{
    if j < b - 1 {
        lemma_run_duration_ge(chords, a, b - 1, init, j);
    }
}

proof fn lemma_in_run(starts: Seq<int>, n: int, j: int, k: int)
    requires
        starts_ok(starts, n),
        0 <= k < starts.len(),
        starts[k] <= j < n,
    ensures
        exists|i: int| 0 <= i < starts.len() && #[trigger] starts[i] <= j < run_end(starts, n, i),
    decreases starts.len() - k,
{
    if k + 1 < starts.len() && starts[k + 1] <= j {
        lemma_in_run(starts, n, j, k + 1);
    } else {
        assert(starts[k] <= j < run_end(starts, n, k));
    }
}

/// Merging chords sorted by time loses no chord: each single-key chord
/// lands in a merged chord that holds its key, starts no later than it and
/// less than a millisecond before it, and lasts at least as long.
pub proof fn lemma_merge_covers(chords: Seq<ChordView>, j: int)
    requires
        single_keys(chords),
        sorted_by_key(chords, chord_time()),
        0 <= j < chords.len(),
    ensures
        exists|i: int|
            0 <= i < merge_spec(chords).len() && (#[trigger] merge_spec(chords)[i]).keys.contains(
                chords[j].keys[0],
            ) && merge_spec(chords)[i].duration >= chords[j].duration && merge_spec(chords)[i].time
                <= chords[j].time < merge_spec(chords)[i].time + 1000,
{
    let n = chords.len() as int;
    lemma_merge_runs(chords);
    let starts = run_starts(chords);
    let out = merge_spec(chords);
    assert(starts[0] == 0);
    lemma_in_run(starts, n, j, 0);
    let i = choose|i: int| 0 <= i < starts.len() && #[trigger] starts[i] <= j < run_end(starts, n, i);
    let a = starts[i];
    let b = run_end(starts, n, i);
    assert(out[i] == run_chord(chords, a, b) && run_closed(chords, a, b));
    assert(0 <= a < n);
    assert(chord_time()(chords[a]) <= chord_time()(chords[j]));
    assert(close_in_time(chords[j].time, chords[a].time));
    lemma_run_duration_ge(chords, a, b, if a == 0 { 0 } else { chords[a].duration }, j);
    let fk = first_keys(chords.subrange(a, b));
    assert(fk[j - a] == chords[j].keys[0]);
    assert(out[i].keys.contains(chords[j].keys[0]));
}

proof fn lemma_note_chords_prefix(x: Seq<MidiEvent>, y: Seq<MidiEvent>, keys: Map<u8, Seq<char>>)
    ensures
        note_chords(x, keys).1.len() <= note_chords(x + y, keys).1.len(),
        forall|i: int|
            0 <= i < note_chords(x, keys).1.len() ==> #[trigger] note_chords(x + y, keys).1[i]
                == note_chords(x, keys).1[i],
    decreases y.len(),
{
    if y.len() == 0 {
        assert(x + y =~= x);
    } else {
        lemma_note_chords_prefix(x, y.drop_last(), keys);
        assert((x + y).drop_last() =~= x + y.drop_last());
    }
}

/// A mapped note held from a note-on to its note-off, with no other event
/// of that note between, is played: whatever events come before and after,
/// the chords of the song hold a chord with the note's key that starts at
/// most a millisecond before the note-on and no later, and lasts at least
/// from the note-on to the note-off.
pub proof fn lemma_held_note_played(
    pre: Seq<MidiEvent>,
    on: MidiEvent,
    mid: Seq<MidiEvent>,
    off: MidiEvent,
    post: Seq<MidiEvent>,
    keys: Map<u8, Seq<char>>,
)
    requires
        on.is_note_on,
        !off.is_note_on,
        off.note == on.note,
        keys.contains_key(on.note),
        untouched(mid, on.note),
        on.time <= i128::MAX,
        off.time <= i128::MAX,
    ensures
        exists|i: int|
            0 <= i < chords_spec(pre.push(on) + mid + seq![off] + post, keys).len() && (#[trigger] chords_spec(
                pre.push(on) + mid + seq![off] + post,
                keys,
            )[i]).keys.contains(keys[on.note]) && chords_spec(
                pre.push(on) + mid + seq![off] + post,
                keys,
            )[i].duration >= off.time - on.time && chords_spec(
                pre.push(on) + mid + seq![off] + post,
                keys,
            )[i].time <= on.time < chords_spec(pre.push(on) + mid + seq![off] + post, keys)[i].time
                + 1000,
{
    broadcast use vstd::seq_lib::group_to_multiset_ensures;

    let x = pre.push(on) + mid + seq![off];
    let events = x + post;
    lemma_held_note(pre, on, mid, off, keys);
    let cx = note_chords(x, keys).1;
    let c = cx.last();
    lemma_note_chords_prefix(x, post, keys);
    let raw = note_chords(events, keys).1;
    assert(raw[cx.len() - 1] == c);
    let sorted = sort_by_key(raw, chord_time());
    lemma_sort_by_key(raw, chord_time());
    lemma_note_chords_mapped(events, keys);
    assert(raw.contains(c));
    assert(sorted.to_multiset().count(c) > 0);
    assert(sorted.contains(c));
    let j = choose|j: int| 0 <= j < sorted.len() && sorted[j] == c;
    assert forall|k: int| 0 <= k < sorted.len() implies (#[trigger] sorted[k]).keys.len() == 1 by {
        assert(sorted.to_multiset().count(sorted[k]) > 0);
        assert(raw.contains(sorted[k]));
        let m = choose|m: int| 0 <= m < raw.len() && raw[m] == sorted[k];
        assert(raw[m].keys.len() == 1);
    }
    lemma_merge_covers(sorted, j);
    assert(c.keys[0] == keys[on.note]);
    let out = merge_spec(sorted);
    assert(chords_spec(events, keys) == out);
    let i = choose|i: int|
        0 <= i < out.len() && (#[trigger] out[i]).keys.contains(sorted[j].keys[0])
            && out[i].duration >= sorted[j].duration && out[i].time <= sorted[j].time < out[i].time
            + 1000;
    assert(out[i].keys.contains(keys[on.note]));
    assert(out[i].duration >= off.time - on.time);
    assert(out[i].time <= on.time < out[i].time + 1000);
}

/// No chord has a negative duration.
pub open spec fn durations_nonneg(chords: Seq<ChordView>) -> bool {
    forall|i: int| 0 <= i < chords.len() ==> (#[trigger] chords[i]).duration >= 0
}

proof fn lemma_note_chords_sorted(events: Seq<MidiEvent>, keys: Map<u8, Seq<char>>)
    requires
        times_fit(events),
        sorted_by_key(events, event_time()),
    ensures
        events.len() > 0 ==> forall|k: u8|
            #[trigger] note_chords(events, keys).0.contains_key(k) ==> note_chords(events, keys).0[k]
                <= events.last().time,
        durations_nonneg(note_chords(events, keys).1),
    decreases events.len(),
{
    if events.len() > 0 {
        let pre = events.drop_last();
        let e = events.last();
        assert forall|i: int, j: int| 0 <= i <= j < pre.len() implies event_time()(pre[i])
            <= event_time()(pre[j]) by {
            assert(pre[i] == events[i]);
            assert(pre[j] == events[j]);
        }
        assert forall|i: int| 0 <= i < pre.len() implies (#[trigger] pre[i]).time <= i128::MAX by {
            assert(pre[i] == events[i]);
        }
        lemma_note_chords_sorted(pre, keys);
        if pre.len() > 0 {
            assert(event_time()(events[pre.len() - 1]) <= event_time()(events[events.len() - 1]));
            assert(pre.last() == events[pre.len() - 1]);
        }
        assert(e == events[events.len() - 1]);
        assert(e.time <= i128::MAX);
        let (active, cs) = note_chords(pre, keys);
        if !e.is_note_on && active.contains_key(e.note) {
            assert(active[e.note] <= e.time);
        }
    }
}

proof fn lemma_merge_steps_nonneg(chords: Seq<ChordView>, n: nat)
    requires
        0 < chords.len(),
        n <= chords.len(),
        durations_nonneg(chords),
    ensures
        merge_steps(chords, n).duration >= 0,
        durations_nonneg(merge_steps(chords, n).merged),
    decreases n,
{
    if n > 0 {
        lemma_merge_steps_nonneg(chords, (n - 1) as nat);
        assert(chords[n - 1].duration >= 0);
    }
}

/// Merging chords of nonnegative durations gives chords of nonnegative
/// durations.
pub proof fn lemma_merge_nonneg(chords: Seq<ChordView>)
    requires
        durations_nonneg(chords),
    ensures
        durations_nonneg(merge_spec(chords)),
{
    if chords.len() > 0 {
        lemma_merge_steps_nonneg(chords, chords.len());
    }
}

/// Events in nondecreasing order of time, as a parsed song gives them,
/// make chords of nonnegative duration.
pub proof fn lemma_song_durations(events: Seq<MidiEvent>, keys: Map<u8, Seq<char>>)
    requires
        times_fit(events),
        sorted_by_key(events, event_time()),
    ensures
        durations_nonneg(chords_spec(events, keys)),
{
    broadcast use vstd::seq_lib::group_to_multiset_ensures;

    let raw = note_chords(events, keys).1;
    let sorted = sort_by_key(raw, chord_time());
    lemma_note_chords_sorted(events, keys);
    lemma_sort_by_key(raw, chord_time());
    assert forall|i: int| 0 <= i < sorted.len() implies (#[trigger] sorted[i]).duration >= 0 by {
        assert(sorted.to_multiset().count(sorted[i]) > 0);
        assert(raw.contains(sorted[i]));
    }
    lemma_merge_nonneg(sorted);
}

/// Two event sequences that differ at most in velocities.
pub open spec fn same_but_velocity(a: Seq<MidiEvent>, b: Seq<MidiEvent>) -> bool {
    &&& a.len() == b.len()
    &&& forall|i: int|
        0 <= i < a.len() ==> (#[trigger] a[i]).time == b[i].time && a[i].note == b[i].note
            && a[i].is_note_on == b[i].is_note_on
}

/// Velocity is ignored: events that differ only in velocity make the same
/// chords.
pub proof fn lemma_velocity_ignored(a: Seq<MidiEvent>, b: Seq<MidiEvent>, keys: Map<u8, Seq<char>>)
    requires
        same_but_velocity(a, b),
    ensures
        note_chords(a, keys) == note_chords(b, keys),
        chords_spec(a, keys) == chords_spec(b, keys),
    decreases a.len(),
{
    if a.len() > 0 {
        assert(same_but_velocity(a.drop_last(), b.drop_last())) by {
            assert forall|i: int| 0 <= i < a.drop_last().len() implies (#[trigger] a.drop_last()[i]).time
                == b.drop_last()[i].time && a.drop_last()[i].note == b.drop_last()[i].note
                && a.drop_last()[i].is_note_on == b.drop_last()[i].is_note_on by {
                assert(a.drop_last()[i] == a[i]);
                assert(b.drop_last()[i] == b[i]);
            }
        }
        lemma_velocity_ignored(a.drop_last(), b.drop_last(), keys);
        assert(a.last() == a[a.len() - 1]);
        assert(b.last() == b[b.len() - 1]);
    }
}

/// How long after the start of playback chord `i` is due: its time less
/// the time of the first chord, so that the first chord plays at once; a
/// chord earlier than the first is due at once.
pub open spec fn playback_offset(chords: Seq<Chord>, i: int) -> int {
    if chords[i].time >= chords[0].time {
        chords[i].time - chords[0].time
    } else {
        0
    }
}

/// When playback starts each chord, in microseconds from the start of
/// playback.
pub fn playback_targets(chords: &Vec<Chord>) -> (r: Vec<u128>)
    ensures
        r@.len() == chords@.len(),
        forall|i: int| 0 <= i < chords@.len() ==> #[trigger] r@[i] == playback_offset(chords@, i),
{
    let mut r: Vec<u128> = Vec::new();
    let mut i: usize = 0;
    while i < chords.len()
        invariant
            i <= chords@.len(),
            r@.len() == i,
            forall|j: int| 0 <= j < i ==> #[trigger] r@[j] == playback_offset(chords@, j),
        decreases chords.len() - i,
    {
        r.push(chords[i].time.saturating_sub(chords[0].time));
        i += 1;
    }
    r
}

} // verus!
