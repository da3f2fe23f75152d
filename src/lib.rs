//! A token-transition model that learns which token follows which in a text,
//! ranks each token's followers by how often they were seen, and walks that
//! ranking at random to produce text with the same local statistics.

pub mod normalize;
pub mod stats;
pub mod ranking;
pub mod walker;
