//! Analyses of cipher text.

pub mod general_cryptanalysis_methods;
