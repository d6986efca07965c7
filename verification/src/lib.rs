//! Statistical recovery of the key of a monoalphabetic substitution cipher.

pub mod alphabet;
pub mod estimator;
pub mod freq_analysis;
pub mod load_data;
pub mod scorer;
pub mod search;
pub mod sub_cipher;
pub mod tables;
