//! Converting MIDI songs into timed keyboard chords for the 15-key
//! instruments of Sky: Children of the Light.
//!
//! The library parses standard MIDI files into note events, maps MIDI
//! note numbers to keyboard keys, groups notes into chords and plans the
//! key presses for each chord. Event and chord times are integer
//! microseconds, turned from MIDI ticks by the song's tempo map (120 beats
//! per minute until the first set-tempo event).
pub mod keyboard;
pub mod mapper;
pub mod midi;
pub mod order;
pub mod player;
pub mod tempo;
