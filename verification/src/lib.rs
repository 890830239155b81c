//! Legare: a small compiler for free-text search queries.
//!
//! A raw query is first brought into a canonical form by
//! [`parse::normalise::normalise`] and then read into a tree of tokens by
//! [`parse::search::tokenise`]. [`handler`] and [`graph`] say what the two
//! services built on them answer.

pub mod graph;
pub mod handler;
pub mod parse;
