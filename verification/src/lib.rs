//! Splitting of text that was written without spaces into its most likely
//! words: a table of word costs is built from a ranked word list, and a
//! dynamic program finds the cheapest sequence of words that spells the text.

pub mod corpus;
pub mod cost;
pub mod laws;
pub mod model;
pub mod segment;
pub mod text;

pub use crate::corpus::lines_from_text;
pub use crate::model::{get_cost_dict, CostModel, ModelError};
pub use crate::segment::split;
