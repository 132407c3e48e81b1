//! Beat tracking with a hidden Markov model of a bar.
pub mod bar;
pub mod beats;
pub mod hmm;
pub mod models;
pub mod observation;
pub mod space;
pub mod spacing;
pub mod transition;
