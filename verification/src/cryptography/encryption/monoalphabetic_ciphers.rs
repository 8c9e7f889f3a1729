//! Ciphers that replace each symbol by one other symbol.

pub mod caesar_number;
