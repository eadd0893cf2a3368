//! Publishing side of a pub/sub fan-out channel, with the query
//! identifiers and descriptors that name what is being published.

pub mod query;
pub mod publisher;
