//! Spaced repetition of vocabulary through sentences that hold at most a
//! little unfamiliar material.
//!
//! The library keeps a vocabulary, a corpus of sentences and the links
//! between words and the sentences they occur in. It reads text in sentence
//! by sentence, schedules each word with a variant of SuperMemo 2, and picks
//! the sentence to show next: one whose words are due for review, or else
//! one with as few new words as possible.
//!
//! The library does no input or output. Its callers hand in what a
//! morphological analyzer found in each sentence, the present moment, and a
//! number to pick among sentences that rank alike.
//!
//! - `knowledge` holds the store and its operations, `model` says as
//!   mathematics what each of them does, and `laws` what follows from that.
//! - `scheduler` is the review scheduler. It counts in whole numbers: a
//!   response quality in hundredths of a grade point, an easiness factor in
//!   millionths, an interval in seconds.
//! - `clock` holds instants in seconds since 1970 and the end of the
//!   learner's day.
//! - `sentences` splits a text into sentences, `analyzer` reads the answer
//!   of the analyzer, `frequency` ranks words by how common they are, and
//!   `text` holds what these share.

pub mod analyzer;
pub mod clock;
pub mod error;
pub mod frequency;
pub mod knowledge;
pub mod laws;
pub mod model;
pub mod scheduler;
pub mod sentences;
mod tables;
pub mod text;
