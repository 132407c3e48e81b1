//! What is found out about a track before it is played.
pub mod spectrum;
pub mod tempo;
pub mod waveform;
