//! What the screen shows, and what the mouse does to it.
pub mod deck_view;
pub mod disc;
pub mod knob;
pub mod spectrum;
pub mod waveform;
pub mod wipe;
