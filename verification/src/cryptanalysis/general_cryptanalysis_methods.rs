//! Analyses that do not depend on the cipher.

pub mod frequency_analysis;
