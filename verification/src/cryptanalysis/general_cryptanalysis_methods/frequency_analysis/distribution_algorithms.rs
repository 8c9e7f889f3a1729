//! Ways to compute the distribution of the symbols of a text.

pub mod statistical;
