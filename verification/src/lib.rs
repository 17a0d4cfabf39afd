//! A dictionary word-filtering library.
//!
//! A word corpus is loaded into a sorted, duplicate-free store and then
//! narrowed by chainable, pure filters: a length range applied at load time,
//! letter-set filters (strict sub-multiset matching or inclusive shared-letter
//! matching), and a positional pattern filter.  The store renders its contents
//! as a bounded, space-joined listing or hands out a single pseudo-randomly
//! chosen member.

pub mod dictionary;
pub mod filtering;
pub mod laws;
pub mod letters;
pub mod model;
pub mod order;
pub mod parse;
pub mod pattern;
pub mod query;
pub mod random;
pub mod text;
