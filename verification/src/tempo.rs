//! Tempo maps: converting MIDI ticks into microseconds.
//!
//! A tempo is a number of microseconds per quarter note. Until the first
//! tempo change the tempo is 500000 (120 beats per minute); a change at tick
//! `c` sets the tempo from `c` on. A file's division is its number of ticks
//! per quarter note, so a tick lasts `tempo / division` microseconds.
use vstd::prelude::*;
use crate::order::sorted_by_key;

verus! {

/// A tempo change: from `tick` on, a quarter note lasts
/// `micros_per_quarter` microseconds.
#[derive(Debug, Clone, Copy, PartialEq, Eq, Structural)]
pub struct TempoChange {
    pub tick: u64,
    pub micros_per_quarter: u32,
}

/// The tempo before any tempo change: 120 beats per minute.
pub const DEFAULT_MICROS_PER_QUARTER: u32 = 500000;

/// The key by which tempo changes are ordered: their tick.
pub open spec fn tempo_tick() -> spec_fn(TempoChange) -> int {
    |c: TempoChange| c.tick as int
}

/// The time from tick `from`, where the tempo is `tempo`, to tick `t`,
/// in microseconds times the division, given the tempo changes `tc` that
/// follow `from` in order of tick.
pub open spec fn scaled_time(tc: Seq<TempoChange>, tempo: int, from: int, t: int) -> int
    decreases tc.len(),
{
    if tc.len() == 0 || t <= tc[0].tick {
        (t - from) * tempo
    } else {
        (tc[0].tick - from) * tempo + scaled_time(
            tc.skip(1),
            tc[0].micros_per_quarter as int,
            tc[0].tick as int,
            t,
        )
    }
}

/// The time of tick `t` in whole microseconds from the start of the song,
/// under the tempo map `tc` with `division` ticks per quarter note.
pub open spec fn micros_at(tc: Seq<TempoChange>, division: u16, t: int) -> int {
    scaled_time(tc, DEFAULT_MICROS_PER_QUARTER as int, 0, t) / (division as int)
}

/// The largest tick that a song of at most 2^32 bytes reaches: 2^60.
pub open spec fn max_tick() -> int {
    0x1000000000000000
}

/// The largest time in microseconds of such a song: 2^84.
pub open spec fn max_micros() -> int {
    0x1000000000000000000000
}

/// A tempo map as parsing gives it: in order of tick, ticks at most
/// `max_tick()`, tempos below 2^24 (three bytes).
pub open spec fn tempo_map_ok(tc: Seq<TempoChange>) -> bool {
    &&& sorted_by_key(tc, tempo_tick())
    &&& forall|i: int|
        0 <= i < tc.len() ==> (#[trigger] tc[i]).tick <= max_tick() && tc[i].micros_per_quarter
            < 0x1000000
}

proof fn lemma_sorted_skip(tc: Seq<TempoChange>, n: int)
    requires
        tempo_map_ok(tc),
        0 <= n <= tc.len(),
    ensures
        tempo_map_ok(tc.skip(n)),
{
    let s = tc.skip(n);
    assert forall|i: int, j: int| 0 <= i <= j < s.len() implies tempo_tick()(s[i]) <= tempo_tick()(
        s[j],
    ) by {
        assert(s[i] == tc[i + n] && s[j] == tc[j + n]);
        assert(tempo_tick()(tc[i + n]) <= tempo_tick()(tc[j + n]));
    }
    assert forall|i: int| 0 <= i < s.len() implies (#[trigger] s[i]).tick <= max_tick()
        && s[i].micros_per_quarter < 0x1000000 by {
        assert(s[i] == tc[i + n]);
    }
}

/// Time elapses at no negative rate and at most 2^24 per tick.
proof fn lemma_scaled_bounds(tc: Seq<TempoChange>, tempo: int, from: int, t: int)
    requires
        tempo_map_ok(tc),
        0 <= tempo < 0x1000000,
        from <= t,
        forall|i: int| 0 <= i < tc.len() ==> from <= (#[trigger] tc[i]).tick,
    ensures
        0 <= scaled_time(tc, tempo, from, t) <= (t - from) * 0x1000000,
    decreases tc.len(),
{
    assert(0 <= (t - from) * tempo <= (t - from) * 0x1000000) by (nonlinear_arith)
        requires
            0 <= tempo < 0x1000000,
            from <= t,
    ;
    if tc.len() > 0 && t > tc[0].tick {
        let c = tc[0];
        lemma_sorted_skip(tc, 1);
        assert forall|i: int| 0 <= i < tc.skip(1).len() implies c.tick <= (#[trigger] tc.skip(
            1,
        )[i]).tick by {
            assert(tc.skip(1)[i] == tc[i + 1]);
            assert(tempo_tick()(tc[0]) <= tempo_tick()(tc[i + 1]));
        }
        lemma_scaled_bounds(tc.skip(1), c.micros_per_quarter as int, c.tick as int, t);
        let a = c.tick - from;
        assert(0 <= a * tempo <= a * 0x1000000) by (nonlinear_arith)
            requires
                0 <= tempo < 0x1000000,
                0 <= a,
        ;
    }
}

/// Later ticks are not earlier in time.
proof fn lemma_scaled_monotone(tc: Seq<TempoChange>, tempo: int, from: int, t1: int, t2: int)
    requires
        tempo_map_ok(tc),
        0 <= tempo < 0x1000000,
        from <= t1 <= t2,
        forall|i: int| 0 <= i < tc.len() ==> from <= (#[trigger] tc[i]).tick,
    ensures
        scaled_time(tc, tempo, from, t1) <= scaled_time(tc, tempo, from, t2),
    decreases tc.len(),
{
    assert((t1 - from) * tempo <= (t2 - from) * tempo) by (nonlinear_arith)
        requires
            0 <= tempo,
            from <= t1 <= t2,
    ;
    if tc.len() > 0 && t2 > tc[0].tick {
        let c = tc[0];
        lemma_sorted_skip(tc, 1);
        assert forall|i: int| 0 <= i < tc.skip(1).len() implies c.tick <= (#[trigger] tc.skip(
            1,
        )[i]).tick by {
            assert(tc.skip(1)[i] == tc[i + 1]);
            assert(tempo_tick()(tc[0]) <= tempo_tick()(tc[i + 1]));
        }
        if t1 > c.tick {
            lemma_scaled_monotone(tc.skip(1), c.micros_per_quarter as int, c.tick as int, t1, t2);
        } else {
            lemma_scaled_bounds(tc.skip(1), c.micros_per_quarter as int, c.tick as int, t2);
            assert((t1 - from) * tempo <= (c.tick - from) * tempo) by (nonlinear_arith)
                requires
                    0 <= tempo,
                    from <= t1 <= c.tick,
            ;
        }
    }
}

/// Converting ticks to microseconds keeps their order: under a tempo map
/// in order of tick, a later tick is never earlier in time.
pub proof fn lemma_micros_monotone(tc: Seq<TempoChange>, division: u16, t1: int, t2: int)
    requires
        tempo_map_ok(tc),
        division > 0,
        0 <= t1 <= t2,
    ensures
        micros_at(tc, division, t1) <= micros_at(tc, division, t2),
{
    lemma_scaled_monotone(tc, DEFAULT_MICROS_PER_QUARTER as int, 0, t1, t2);
    let a = scaled_time(tc, DEFAULT_MICROS_PER_QUARTER as int, 0, t1);
    let b = scaled_time(tc, DEFAULT_MICROS_PER_QUARTER as int, 0, t2);
    let d = division as int;
    assert(a / d <= b / d) by (nonlinear_arith)
        requires
            a <= b,
            d > 0,
    ;
}

/// Without tempo changes a song plays at 120 beats per minute: tick `t`
/// is at `t * 500000 / division` microseconds.
pub proof fn lemma_default_tempo(division: u16, t: int)
    ensures
        micros_at(Seq::empty(), division, t) == t * 500000 / (division as int),
{
}

/// With one tempo change at tick `c` to `m` microseconds per quarter note,
/// ticks up to `c` go at 120 beats per minute and each later tick lasts
/// `m / division` microseconds.
pub proof fn lemma_one_tempo_change(c: u64, m: u32, division: u16, t: int)
    requires
        t >= 0,
    ensures
        micros_at(seq![TempoChange { tick: c, micros_per_quarter: m }], division, t) == if t <= c {
            t * 500000 / (division as int)
        } else {
            (c * 500000 + (t - c) * m) / (division as int)
        },
{
    let tc = seq![TempoChange { tick: c, micros_per_quarter: m }];
    assert(tc.skip(1) =~= Seq::<TempoChange>::empty());
    assert(tc[0].tick == c);
    assert(scaled_time(tc.skip(1), m as int, c as int, t) == (t - c) * m);
    if t > c {
        assert(scaled_time(tc, 500000, 0, t) == c * 500000 + (t - c) * m);
    } else {
        assert(scaled_time(tc, 500000, 0, t) == t * 500000);
    }
}

/// The time of a tick in microseconds under a tempo map.
pub fn tick_to_micros(tempos: &Vec<TempoChange>, division: u16, tick: u64) -> (r: u128)
    requires
        division > 0,
        tempo_map_ok(tempos@),
        tick <= max_tick(),
    ensures
        r == micros_at(tempos@, division, tick as int),
        r <= max_micros(),
{
    let ghost tc = tempos@;
    let mut acc: u128 = 0;
    let mut from: u64 = 0;
    let mut tempo: u128 = DEFAULT_MICROS_PER_QUARTER as u128;
    let mut i: usize = 0;
    proof {
        assert(tc.skip(0) =~= tc);
    }
    while i < tempos.len() && tempos[i].tick < tick
        invariant
            tc == tempos@,
            tempo_map_ok(tc),
            division > 0,
            tick <= max_tick(),
            i <= tc.len(),
            from <= tick,
            tempo < 0x1000000,
            i == 0 ==> from == 0,
            i > 0 ==> from == tc[i - 1].tick,
            acc <= from * 0x1000000,
            scaled_time(tc, DEFAULT_MICROS_PER_QUARTER as int, 0, tick as int) == acc
                + scaled_time(tc.skip(i as int), tempo as int, from as int, tick as int),
        decreases tc.len() - i,
    {
        let c = tempos[i];
        if i > 0 {
            assert(tempo_tick()(tc[i - 1]) <= tempo_tick()(tc[i as int]));
        }
        assert(tc.skip(i as int)[0] == c);
        assert(tc.skip(i as int).skip(1) =~= tc.skip(i + 1));
        let a: u64 = c.tick - from;
        assert(a * tempo <= a * 0x1000000) by (nonlinear_arith)
            requires
                tempo < 0x1000000,
        ;
        acc = acc + (a as u128) * tempo;
        from = c.tick;
        tempo = c.micros_per_quarter as u128;
        i += 1;
    }
    let a: u64 = tick - from;
    assert(a * tempo <= a * 0x1000000) by (nonlinear_arith)
        requires
            tempo < 0x1000000,
    ;
    acc = acc + (a as u128) * tempo;
    assert(acc <= 0x1000000000000000000000);
    let r = acc / (division as u128);
    assert(r <= acc) by (nonlinear_arith)
        requires
            r == acc / (division as u128),
            division > 0,
    ;
    r
}

} // verus!
