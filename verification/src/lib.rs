//! Classical cryptanalysis over byte-encoded text and a symbolic alphabet.
//!
//! An alphabet maps symbol names to opcode sequences of one or more bytes.
//! `utils` holds the alphabet, its canonical order and the greedy cut of an
//! opcode stream into symbols; `cryptanalysis` counts the symbols of a cipher
//! text and computes its index of coincidence; `cryptography` holds the
//! Caesar cipher.

pub mod cryptanalysis;
pub mod cryptography;
pub mod utils;
