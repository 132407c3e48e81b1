//! Tempo and beats by way of a neural network.
pub mod dbn;
pub mod decode;
pub mod detect;
pub mod features;
pub mod filterbank;
pub mod infer;
