//! Playback of a track on a deck.
pub mod biquad;
pub mod deck;
pub mod decode;
pub mod eq;
pub mod monitor;
pub mod scratch;
pub mod seek;
pub mod span;
