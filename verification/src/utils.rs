//! Alphabets, orders and encodings shared by the ciphers and the analyses.

pub mod alphabets;
pub mod canonical_order;
pub mod length_groups;
pub mod lexicographic;
pub mod opcode_text;
pub mod ratio;
pub mod segmentation;
