//! What a handler can ask for of the request that it answers.

pub mod body;
pub mod path;
pub mod query;
