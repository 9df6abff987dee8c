# sky_piano

Plays MIDI songs on the 15-key instruments of Sky: Children of the Light by
simulating keyboard input. The library in `src/` holds the logic with its proofs; the
program in `app/` reads files, parses the command line, keeps time and
simulates the key presses.

## Library (`src/`)

- `midi` — parses MIDI files (header, tracks, variable-length delta times,
  running status, channel messages; system-exclusive messages and meta
  events are skipped by their length, set-tempo events are kept) into the
  song's tempo map and its note events, timed in microseconds and stably
  sorted by time; note names such as `C4`.
- `tempo` — the tempo map: a tick's time in microseconds, 120 beats per
  minute until the first set-tempo event.
- `mapper` — maps MIDI note numbers to keyboard keys: the chromatic
  mapping (60 → `h` … 74 → `p`), which the program uses when no mapping file
  is given; the positional mapping of Sky's 3x5 grid (0 → `y` … 14 → `/`);
  or a mapping configuration.
- `player` — pairs note-on and note-off events into notes, turns mapped notes
  into chords, sorts them by start and merges chords that start less than a
  millisecond apart; song statistics; the playback schedule (the first
  chord at once, each later one at its time less the first chord's).
- `keyboard` — the keys a key text names and the order in which a chord
  presses and releases them.
- `order` — the stable sort by time that events and chords go through.

Times are integer microseconds, computed from MIDI ticks, the file's
division (ticks per quarter note) and its set-tempo events; `app/` only
formats them as seconds.

## Program (`app/`)

`sky-piano play [--delay N] [--dry] song.mid`, `sky-piano preview song.mid`,
`sky-piano dry-run song.mid`; `--mapping file.toml` loads a mapping such as

```toml
[mapping]
60 = "h"
61 = "j"
```
