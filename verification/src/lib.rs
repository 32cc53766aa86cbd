//! Lexical data engine for a vocabulary-acquisition tool.
//!
//! The crate turns a line-delimited dictionary dump and a frequency corpus
//! into a queryable lexicon, tracks lemmas the learner has met, ranks unseen
//! lemmas by several priority signals, and offers the integer time helpers of
//! the spaced-repetition scheduler.  All state lives in plain relational
//! tables held in memory; persistence and presentation are the caller's
//! business.

pub mod dictionary;
pub mod entry;
pub mod error;
pub mod fsrs;
pub mod importer;
pub mod jsonval;
pub mod laws;
pub mod ledger;
pub mod lemmatize;
pub mod lexicon;
pub mod lookup;
pub mod queue;
pub mod record;
pub mod text;
