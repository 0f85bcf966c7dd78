//! Passphrase-style password generation: load a word list from text,
//! filter it by word length, and join uniformly sampled words with a
//! separator.

pub mod generator;
pub mod rng;
pub mod wordlist;
