//! Layered boolean-logic networks: every unit folds its input bits through a
//! chain of two-input boolean operators and mixes the result with a bias.
pub mod network;
mod random;
