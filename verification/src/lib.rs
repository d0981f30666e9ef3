//! A character n-gram text classifier.
//!
//! An offline compiler turns a training corpus of `(name, label)` pairs into
//! three immutable artifacts: an ordered set of labels, an ordered vocabulary
//! of character n-grams, and a table of per-example boolean feature vectors.
//! An online scorer then ranks the labels for a query string by a
//! Naive-Bayes-style log-probability score and returns the top ten.
//!
//! Scores have the form `log2(N/D)` for integer count products `N` and `D`,
//! so both the ranking and the validity filter are decided exactly by
//! comparing integer products; no floating point is involved.

pub mod corpus;
pub mod laws;
pub mod ngram;
pub mod product;
pub mod scorer;

pub use scorer::classify;
