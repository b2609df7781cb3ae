//! Bass tablature engine: fretboard mapping, fingering optimization,
//! transposition with octave correction, note segmentation, and text export.

pub mod export;
pub mod midi;
pub mod pipeline;
pub mod segment;
pub mod sheet;
pub mod tab;
pub mod text;
pub mod transpose;
pub mod viterbi;

pub use midi::{NoteEvent, Technique};
pub use tab::{Candidate, NoteOrigin, TabLayout, TabPosition, Tuning, pitch_to_candidates};
pub use transpose::transpose;
pub use viterbi::optimize;
pub mod time;
