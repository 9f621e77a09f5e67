//! Classes of words over a fixed alphabet that share a literal prefix and
//! avoid a finite list of forbidden substrings, with the operations that
//! decompose such a class into simpler ones.

pub mod words;
pub mod text;
pub mod odometer;
pub mod avoiding;
pub mod laws;

pub use avoiding::{AvoidingWithPrefix, ClassError};
