//! A mixer for two decks: analysis of tracks, playback, and what the screen shows.
//!
//! Every number is held as the bits of a floating-point number, and every
//! operation on them is defined by rounding the exact result. Logarithms, powers,
//! roots and the functions of angles are left to the caller, who hands their
//! results in.
pub mod analysis;
pub mod animation;
pub mod app;
pub mod audio;
pub mod beatnet;
pub mod float;
pub mod leg;
pub mod midi;
pub mod mixer;
pub mod signal;
pub mod sorting;
pub mod ui;
pub mod window;
