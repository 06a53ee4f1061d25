//! A small indexer of web pages: what is read of a page, how its words are
//! counted, and how the relevance of the words is computed over all pages.
//!
//! The library decides and computes; it reaches neither the network nor the
//! store. Where work has to be done outside, a state machine names the next
//! step and is told what came of it.

pub mod chains;
pub mod chars;
pub mod classify;
pub mod commit;
pub mod extract;
pub mod frequency;
pub mod models;
pub mod normalize;
pub mod pipeline;
pub mod rebuild;
pub mod rejoin;
pub mod text;
pub mod tfidf;
