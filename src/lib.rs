pub mod element;
pub mod kind;
pub mod laws;
pub mod parsing;
pub mod query;
