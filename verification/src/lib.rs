//! Random passphrases drawn from a word list, with the size of the space
//! they are drawn from.

pub mod casing;
pub mod entropy;
pub mod error;
pub mod phrase;
pub mod random;
pub mod structure;
pub mod text;
pub mod wordlist;
