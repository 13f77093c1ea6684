//! Core of a real-time MIDI playback engine.
//!
//! - `byte_reader`: a cursor over a track's window of the file's bytes.
//! - `midi_track_parser`: the track decoder, and the two passes over a track
//!   (tempo map, note count and key range; then timed events and note spans).
//! - `midi_file`: the header and chunk walk, and the whole-file parse.
//! - `iter_ext`: the two-way and pairwise K-way merges.
//! - `track_laws`: what the passes guarantee of their output.
//! - `midi_writer`: a track encoder that the parser reads back unchanged.
//! - `prerender_audio`: the PCM ring, its producer and consumer, and the
//!   load-shedding, transpose and seek rules.
//! - `global_timer`: the playback clock.
//! - `settings`: preferences kept in a configuration.
pub mod byte_reader;
pub mod midi_track_parser;
pub mod midi_file;
pub mod iter_ext;
pub mod track_laws;
pub mod midi_writer;
pub mod prerender_audio;
pub mod global_timer;
pub mod settings;
