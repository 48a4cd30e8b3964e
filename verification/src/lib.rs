//! Known-plaintext key recovery for the address-dependent XOR stream cipher
//! that protects BK7231 firmware images.
//!
//! Given an encrypted image, the address it is loaded at and a fragment of
//! known plaintext, the search finds where the fragment occurs, under which
//! cipher settings, and with which 32-bit key.
//!
//! - [`crypto`] is the cipher model: three stages, their combination, the
//!   keystream and the settings word.
//! - [`key`] derives the key at a candidate place, or finds that none fits.
//! - [`matching`] says what an occurrence is and what a result record holds.
//! - [`search`] is the streaming strategy, one pass over a byte stream;
//!   [`batch`] the strategy for an image held in memory; [`strategy`] puts
//!   both behind one entry point.
//! - [`equivalence`] proves that both report the same occurrences, each once.
//! - [`utils`] and [`bits`] hold the buffering and bit-level helpers.
pub mod bits;
pub mod crypto;
pub mod utils;
pub mod key;
pub mod matching;
pub mod search;
pub mod batch;
pub mod equivalence;
pub mod strategy;
