//! The text pipeline: normalising a query and reading it into tokens.

pub mod diagnostic;
pub mod grammar;
pub mod nesting;
pub mod normal_form;
pub mod normalise;
pub mod search;
pub mod text;
pub mod together;
pub mod written;
