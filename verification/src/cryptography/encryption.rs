//! Encryption algorithms.

pub mod monoalphabetic_ciphers;
