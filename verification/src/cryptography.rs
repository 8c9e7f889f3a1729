//! Ciphers.

pub mod encryption;
